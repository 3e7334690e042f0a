//! Merkle hash trees over byte strings: building a tree of digests level by
//! level, producing inclusion proofs for a leaf, and checking such a proof
//! against a published root. The digest function is a pluggable oracle.
pub mod oracle;
pub mod tree;
pub mod inclusion;
pub mod laws;
