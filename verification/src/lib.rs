//! A deduplicated in-memory store of Merkle-tree internal nodes.
//!
//! Many trees that share subtrees occupy storage proportional to their unique
//! nodes. The store supports node and path lookup by `(root, position)`,
//! incremental updates that return a new root, extraction of the minimal
//! subset of nodes reachable from a set of roots, and a recording backend
//! that captures read history so a verifier can replay a bounded set of
//! lookups against a minimal node set.

pub mod backend;
pub mod digest;
pub mod empty;
pub mod index;
pub mod laws;
pub mod path;
pub mod reach;
pub mod serial;
pub mod store;
