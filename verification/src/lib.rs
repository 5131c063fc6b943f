//! A fixed-capacity, complete binary Merkle tree.
//!
//! The tree stores all of its nodes in one packed array: slot 0 is the root,
//! slots `[0, L-1)` are internal nodes and slots `[L-1, 2L-1)` are the leaves,
//! where the leaf count `L` must be a power of two. Construction hashes every
//! data block into its leaf slot and then reduces the layers pairwise up to
//! the root; verification replays the hashing along a logarithmic-length
//! authentication path of sibling hashes.

pub mod hashing;
pub mod laws;
pub mod model;
pub mod sha256;
pub mod tree;

pub use hashing::{Hashable, Hasher};
pub use sha256::{Sha256Context, Sha256Digest};
pub use tree::{Error, MerkleTree, MerkleTreeVerifier, SiblingDirection};
