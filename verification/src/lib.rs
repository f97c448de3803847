//! A Merkle key/value store: an AVL tree whose nodes carry hashes, together
//! with the proof format that lets a client check values against a root hash.

pub mod answers;
pub mod bytes;
pub mod commit;
pub mod diff;
pub mod error;
pub mod hash;
pub mod node;
pub mod ops;
pub mod range_proof;
pub mod proofs;
pub mod raw;
pub mod sparse_tree;
pub mod tree;

pub use error::{Error, Result};
pub use hash::HASH_LENGTH;
