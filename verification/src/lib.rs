//! Verifier for Merkle-Patricia-Trie proofs.
//!
//! Given a root digest, a key and a list of encoded trie nodes, the verifier
//! walks from the root along the key's nibbles, resolving each hash pointer
//! against the supplied nodes only, and answers with the value bound to the
//! key, with its absence, or with a failure when the nodes do not suffice.
//!
//! - [`nibbles`]: paths of nibbles, raw and compact.
//! - [`node`]: the five kinds of node, and their mathematical content.
//! - [`encoding`]: what is asked of outside crates, and taken on trust.
//! - [`decode`]: from encoded bytes to a node.
//! - [`db`]: the nodes of a proof, indexed by digest.
//! - [`trie`]: the lookup, and the verification of a proof.
//! - [`soundness`]: theorems on what the verifier's answers are worth.
//! - [`params`], [`batch`]: a proof given as text, and cut into batches for
//!   upload.

pub mod batch;
pub mod db;
pub mod decode;
pub mod digest;
pub mod encoding;
pub mod errors;
pub mod nibbles;
pub mod node;
pub mod params;
pub mod soundness;
pub mod trie;

pub use digest::H256;
pub use errors::TrieError;
pub use nibbles::Nibbles;
pub use node::Node;
pub use trie::EthTrie;
