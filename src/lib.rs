//! A fixed-capacity least-recently-used cache from string keys to string values.
//!
//! Entries sit in an arena and are threaded on a doubly linked recency list by
//! slot numbers; a key index finds an entry's slot. Every operation borrows the
//! cache exclusively, so callers that share one across threads put it behind a
//! single lock.
use vstd::prelude::*;

pub mod index;
pub mod laws;
pub mod lru;
pub mod trie;

pub use lru::{CacheError, LRUCache};
pub use trie::TrieNode;

verus! {

} // verus!
