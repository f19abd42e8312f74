//! A sparse Merkle tree: an authenticated set over a fixed-depth binary tree
//! indexed by the bits of a 32-byte key, with batch updates, an incremental
//! branch cache, and audit paths proving membership or non-membership of any
//! key against a single root digest.

pub mod bits;
pub mod cache;
pub mod hashing;
pub mod keys;
pub mod model;
pub mod order;
pub mod tree;
