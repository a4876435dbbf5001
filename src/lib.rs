//! Merkle-tree integrity checking for chunked binary payloads: chunk
//! hashing, root construction with odd-node duplication, inclusion-proof
//! generation and inclusion-proof verification.

pub mod digest;
pub mod tree;
pub mod chunk;
pub mod laws;
