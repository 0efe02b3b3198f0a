//! A binary hash tree over an ordered list of byte buffers, with inclusion
//! proofs that can be checked against the root alone.
pub mod digest;
pub mod tree;
pub mod inclusion;
pub mod laws;

pub use digest::{Data, Digest, hash_data, concatenate_and_hash};
pub use tree::{MerkleTree, MerkleNode};
pub use inclusion::{Side, ProofEntry, Proof, Error, verify_proof};
