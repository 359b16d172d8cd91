//! What can go wrong while a proof is checked.

use vstd::prelude::*;
use rlp::DecoderError;
use crate::digest::H256;
use crate::nibbles::Nibbles;

verus! {

/// A failure of the verifier. "The key is absent" is no failure.
#[derive(Debug, Clone, PartialEq, Eq)]
pub enum TrieError {
    /// Encoded bytes have the shape of no trie node.
    InvalidData,
    /// The proof does not decide the key under the given root.
    InvalidProof,
    /// A hash pointer on the way names a node that was not supplied.
    MissingTrieNode {
        node_hash: H256,
        traversed: Option<Nibbles>,
        root_hash: Option<H256>,
        err_key: Option<Vec<u8>>,
    },
}

/// The mathematical content of a [`TrieError`].
pub enum Failure {
    InvalidData,
    InvalidProof,
    MissingTrieNode {
        node_hash: Seq<u8>,
        traversed: Option<Seq<u8>>,
        root_hash: Option<Seq<u8>>,
        err_key: Option<Seq<u8>>,
    },
}

impl View for TrieError {
    type V = Failure;

    open spec fn view(&self) -> Failure {
        match *self {
            TrieError::InvalidData => Failure::InvalidData,
            TrieError::InvalidProof => Failure::InvalidProof,
            TrieError::MissingTrieNode { node_hash, traversed, root_hash, err_key } => {
                Failure::MissingTrieNode {
                    node_hash: node_hash@,
                    traversed: match traversed {
                        Some(p) => Some(p@),
                        None => None,
                    },
                    root_hash: match root_hash {
                        Some(h) => Some(h@),
                        None => None,
                    },
                    err_key: match err_key {
                        Some(k) => Some(k@),
                        None => None,
                    },
                }
            },
        }
    }
}

pub type TrieResult<T> = Result<T, TrieError>;

/// Bytes that `rlp` cannot read are bytes of no node.
impl From<DecoderError> for TrieError {
    fn from(error: DecoderError) -> (e: TrieError) {
        TrieError::InvalidData
    }
}

impl vstd::std_specs::convert::FromSpecImpl<DecoderError> for TrieError {
    open spec fn obeys_from_spec() -> bool {
        true
    }

    open spec fn from_spec(error: DecoderError) -> TrieError {
        TrieError::InvalidData
    }
}

} // verus!
