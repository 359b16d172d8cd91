//! The verifier: a descent from the root along the key, through the nodes
//! that a proof supplies.

use vstd::prelude::*;
use crate::db::ProofDb;
use crate::decode::{decode, decode_node};
use crate::digest::{H256, HASHED_LENGTH};
use crate::encoding::{keccak, keccak256};
use crate::errors::{Failure, TrieError, TrieResult};
use crate::nibbles::{raw_path, Nibbles, TERMINATOR};
use crate::node::{bytes_of, lemma_trees_of, Node, Tree};

verus! {

/// What a lookup ends in: the value bound to the key, `None` where the trie
/// binds nothing to it, or the reason why the nodes at hand do not tell.
pub type Outcome = Result<Option<Seq<u8>>, Failure>;

/// The mathematical content of the answer of a lookup.
pub open spec fn outcome_of(found: TrieResult<Option<Vec<u8>>>) -> Outcome {
    match found {
        Ok(value) => Ok(bytes_of(value)),
        Err(e) => Err(e@),
    }
}

/// The mathematical content of an [`EthTrie`].
pub struct TrieModel {
    /// The digest of the root node.
    pub root_hash: Seq<u8>,
    /// The encoded nodes at hand, each under its digest.
    pub nodes: Map<Seq<u8>, Seq<u8>>,
    /// How many hash pointers one descent may resolve.
    pub budget: nat,
}

impl TrieModel {
    /// The failure to resolve the pointer `node_hash` after the first
    /// `index` elements of `path`.
    pub open spec fn missing(self, node_hash: Seq<u8>, path: Seq<u8>, index: int) -> Failure {
        Failure::MissingTrieNode {
            node_hash,
            traversed: Some(path.take(index)),
            root_hash: Some(self.root_hash),
            err_key: None,
        }
    }

    /// The answer of the descent that stands at `source`, with the first
    /// `index` elements of `path` behind it and `budget` pointers left to
    /// resolve.
    ///
    /// - Under the empty node lies nothing.
    /// - A leaf binds its value to the rest of the path, if that is the
    ///   leaf's own path, element for element.
    /// - A branch answers with its own value where the path is at its end
    ///   or at the marker; else the next element picks the child to go on
    ///   with.
    /// - An extension leads on to its child where its prefix starts the
    ///   rest of the path; else nothing lies under it.
    /// - A pointer is resolved against the nodes at hand, and the descent
    ///   goes on at the same place of the path. Resolving fails if no node
    ///   is held under the digest, or if the budget is spent.
    pub open spec fn get_at(self, budget: nat, source: Tree, path: Seq<u8>, index: int) -> Outcome
        decreases budget, source,
    {
        let partial = path.skip(index);
        match source {
            Tree::Empty => Ok(None),
            Tree::Leaf { key, value } => if key == partial {
                Ok(Some(value))
            } else {
                Ok(None)
            },
            Tree::Branch { children, value } => if partial.len() == 0 || partial[0] == TERMINATOR {
                Ok(value)
            } else if partial[0] < children.len() {
                self.get_at(budget, children[partial[0] as int], path, index + 1)
            } else {
                Ok(None)
            },
            Tree::Extension { prefix, node } => if prefix.is_prefix_of(partial) {
                self.get_at(budget, *node, path, index + prefix.len())
            } else {
                Ok(None)
            },
            Tree::Hash { hash } => if !self.nodes.contains_key(hash) || budget == 0 {
                Err(self.missing(hash, path, index))
            } else {
                match decode(self.nodes[hash]) {
                    Some(node) => self.get_at((budget - 1) as nat, node, path, index),
                    None => Err(Failure::InvalidData),
                }
            },
        }
    }

    /// The digests of the pointers that the same descent comes to, in the
    /// order in which it comes to them; the last of them may be one that it
    /// cannot resolve.
    pub open spec fn trail(
        self,
        budget: nat,
        source: Tree,
        path: Seq<u8>,
        index: int,
    ) -> Seq<Seq<u8>>
        decreases budget, source,
    {
        let partial = path.skip(index);
        match source {
            Tree::Empty => Seq::empty(),
            Tree::Leaf { .. } => Seq::empty(),
            Tree::Branch { children, value } => if partial.len() == 0 || partial[0] == TERMINATOR {
                Seq::empty()
            } else if partial[0] < children.len() {
                self.trail(budget, children[partial[0] as int], path, index + 1)
            } else {
                Seq::empty()
            },
            Tree::Extension { prefix, node } => if prefix.is_prefix_of(partial) {
                self.trail(budget, *node, path, index + prefix.len())
            } else {
                Seq::empty()
            },
            Tree::Hash { hash } => if !self.nodes.contains_key(hash) || budget == 0 {
                seq![hash]
            } else {
                match decode(self.nodes[hash]) {
                    Some(node) => seq![hash] + self.trail((budget - 1) as nat, node, path, index),
                    None => seq![hash],
                }
            },
        }
    }

    /// The digests of the pointers that the lookup of `key` comes to.
    pub open spec fn trail_of(self, key: Seq<u8>) -> Seq<Seq<u8>> {
        let root = Tree::Hash { hash: self.root_hash };
        self.trail(self.budget, root, raw_path(key, true), 0)
    }

    /// The answer for `key`: that of the descent from the root along the
    /// key's nibbles, closed by the marker. A missing node is reported
    /// together with the key.
    pub open spec fn get(self, key: Seq<u8>) -> Outcome {
        let root = Tree::Hash { hash: self.root_hash };
        match self.get_at(self.budget, root, raw_path(key, true), 0) {
            Err(Failure::MissingTrieNode { node_hash, traversed, root_hash, err_key }) => Err(
                Failure::MissingTrieNode { node_hash, traversed, root_hash, err_key: Some(key) },
            ),
            other => other,
        }
    }
}

/// Whether the verifier keeps the proof entry `entry`: it is the root node,
/// or it is long enough to be referred to by its digest.
pub open spec fn retains(root_hash: Seq<u8>, entry: Seq<u8>) -> bool {
    keccak256(entry) == root_hash || entry.len() >= HASHED_LENGTH
}

/// The nodes that the verifier draws from `proof`: each entry that it keeps,
/// under its digest. Of two entries with one digest the later one stays.
pub open spec fn working_set(root_hash: Seq<u8>, proof: Seq<Seq<u8>>) -> Map<Seq<u8>, Seq<u8>>
    decreases proof.len(),
{
    if proof.len() == 0 {
        Map::empty()
    } else {
        let earlier = working_set(root_hash, proof.drop_last());
        if retains(root_hash, proof.last()) {
            earlier.insert(keccak256(proof.last()), proof.last())
        } else {
            earlier
        }
    }
}

/// The trie that a proof stands for: its working set under the root, with
/// a budget of one pointer for each entry.
pub open spec fn proof_trie(root_hash: Seq<u8>, proof: Seq<Seq<u8>>) -> TrieModel {
    TrieModel { root_hash, nodes: working_set(root_hash, proof), budget: proof.len() }
}

/// What a proof says of a key: the answer of its trie, where every failure
/// counts as `InvalidProof`.
pub open spec fn verified(root_hash: Seq<u8>, key: Seq<u8>, proof: Seq<Seq<u8>>) -> Outcome {
    match proof_trie(root_hash, proof).get(key) {
        Ok(value) => Ok(value),
        Err(_) => Err(Failure::InvalidProof),
    }
}

/// The nodes given as two lists: under each key that has the length of a
/// digest, the value at the same place. Of two values under one key the
/// later one stays.
pub open spec fn indexed(keys: Seq<Seq<u8>>, values: Seq<Seq<u8>>) -> Map<Seq<u8>, Seq<u8>>
    decreases keys.len(),
{
    if keys.len() == 0 {
        Map::empty()
    } else {
        let earlier = indexed(keys.drop_last(), values);
        if keys.last().len() == HASHED_LENGTH {
            earlier.insert(keys.last(), values[keys.len() - 1])
        } else {
            earlier
        }
    }
}

/// The content of each byte string of `list`, in order.
pub open spec fn byte_strings(list: Seq<Vec<u8>>) -> Seq<Seq<u8>> {
    Seq::new(list.len(), |i: int| list[i]@)
}

/// A trie of which only the root's digest and some nodes are at hand.
#[derive(Debug)]
pub struct EthTrie {
    root: Node,
    root_hash: H256,
    nodes: ProofDb,
    budget: usize,
}

impl View for EthTrie {
    type V = TrieModel;

    closed spec fn view(&self) -> TrieModel {
        TrieModel { root_hash: self.root_hash@, nodes: self.nodes@, budget: self.budget as nat }
    }
}

impl EthTrie {
    #[verifier::type_invariant]
    spec fn rooted(self) -> bool {
        self.root@ == (Tree::Hash { hash: self.root_hash@ })
    }

    /// The trie under `root_hash` of which the nodes `values` are at hand,
    /// each under the digest at the same place of `keys`. One descent may
    /// resolve as many pointers as there are keys.
    pub fn new(keys: Vec<Vec<u8>>, values: Vec<Vec<u8>>, root_hash: H256) -> (trie: EthTrie)
        requires
            keys@.len() <= values@.len(),
        ensures
            trie@ == (TrieModel {
                root_hash: root_hash@,
                nodes: indexed(byte_strings(keys@), byte_strings(values@)),
                budget: keys@.len(),
            }),
    {
        let mut nodes = ProofDb::new();
        let mut i: usize = 0;
        let ghost all_keys = byte_strings(keys@);
        let ghost all_values = byte_strings(values@);
        while i < keys.len()
            invariant
                i <= keys@.len(),
                keys@.len() <= values@.len(),
                all_keys == byte_strings(keys@),
                all_values == byte_strings(values@),
                nodes@ == indexed(all_keys.take(i as int), all_values),
            decreases keys@.len() - i,
        {
            proof {
                assert(all_keys.take(i + 1).drop_last() == all_keys.take(i as int));
            }
            if keys[i].len() == HASHED_LENGTH {
                let hash = H256::from_slice(keys[i].as_slice());
                nodes.insert(&hash, values[i].clone());
            }
            i += 1;
        }
        proof {
            assert(all_keys.take(i as int) == all_keys);
        }
        EthTrie { root: Node::from_hash(root_hash), root_hash, nodes, budget: keys.len() }
    }

    /// Whether the verifier keeps a proof entry of `len` bytes whose digest
    /// is `hash`: it is the root node, or it is long enough to be referred
    /// to by its digest.
    pub fn keeps(root_hash: &H256, hash: &H256, len: usize) -> (kept: bool)
        ensures
            kept == (hash@ == root_hash@ || len >= HASHED_LENGTH),
    {
        root_hash.same_as(hash) || len >= HASHED_LENGTH
    }

    /// Looks `key` up.
    pub fn get(&self, key: &[u8]) -> (found: TrieResult<Option<Vec<u8>>>)
        ensures
            outcome_of(found) == self@.get(key@),
    {
        proof {
            use_type_invariant(self);
        }
        let path = Nibbles::from_raw(key, true);
        let result = self.get_at(&self.root, &path, 0, self.budget);
        match result {
            Err(TrieError::MissingTrieNode { node_hash, traversed, root_hash, err_key: _ }) => Err(
                TrieError::MissingTrieNode {
                    node_hash,
                    traversed,
                    root_hash,
                    err_key: Some(vstd::slice::slice_to_vec(key)),
                },
            ),
            other => other,
        }
    }

    /// Checks `proof` against `root_hash`, and looks `key` up in the trie
    /// that it stands for.
    pub fn verify_proof(
        root_hash: H256,
        key: &[u8],
        proof: Vec<Vec<u8>>,
    ) -> (found: TrieResult<Option<Vec<u8>>>)
        ensures
            outcome_of(found) == verified(root_hash@, key@, byte_strings(proof@)),
    {
        let mut nodes = ProofDb::new();
        let ghost entries = byte_strings(proof@);
        let mut i: usize = 0;
        while i < proof.len()
            invariant
                i <= proof@.len(),
                entries == byte_strings(proof@),
                nodes@ == working_set(root_hash@, entries.take(i as int)),
            decreases proof@.len() - i,
        {
            proof {
                assert(entries.take(i + 1).drop_last() == entries.take(i as int));
            }
            let node_encoded = &proof[i];
            let hash = H256(keccak(node_encoded.as_slice()));
            if EthTrie::keeps(&root_hash, &hash, node_encoded.len()) {
                nodes.insert(&hash, node_encoded.clone());
            }
            i += 1;
        }
        proof {
            assert(entries.take(i as int) == entries);
        }
        let trie = EthTrie {
            root: Node::from_hash(root_hash),
            root_hash,
            nodes,
            budget: proof.len(),
        };
        match trie.get(key) {
            Ok(value) => Ok(value),
            Err(_) => Err(TrieError::InvalidProof),
        }
    }

    /// The descent from `source_node`, with the first `path_index` elements
    /// of `path` behind it and `budget` pointers left to resolve.
    pub fn get_at(
        &self,
        source_node: &Node,
        path: &Nibbles,
        path_index: usize,
        budget: usize,
    ) -> (found: TrieResult<Option<Vec<u8>>>)
        requires
            path_index <= path@.len(),
        ensures
            outcome_of(found) == self@.get_at(
                budget as nat,
                source_node@,
                path@,
                path_index as int,
            ),
        decreases budget, source_node,
    {
        let partial = path.offset(path_index);
        proof {
            path.lemma_len_fits();
        }
        match source_node {
            Node::Empty => Ok(None),
            Node::Leaf(leaf) => {
                if leaf.key.same_as(&partial) {
                    Ok(Some(leaf.value.clone()))
                } else {
                    Ok(None)
                }
            },
            Node::Branch(branch) => {
                if partial.is_empty() || partial.at(0) == 16 {
                    Ok(copy_of(&branch.value))
                } else {
                    let index = partial.at(0);
                    proof {
                        lemma_trees_of(branch.children@);
                    }
                    if index < branch.children.len() {
                        self.get_at(&branch.children[index], path, path_index + 1, budget)
                    } else {
                        Ok(None)
                    }
                }
            },
            Node::Extension(extension) => {
                let prefix = &extension.prefix;
                let match_len = partial.common_prefix(prefix);
                if match_len == prefix.len() {
                    self.get_at(&extension.node, path, path_index + match_len, budget)
                } else {
                    Ok(None)
                }
            },
            Node::Hash(hash_node) => {
                let node_hash = hash_node.hash;
                let recovered = if budget == 0 {
                    None
                } else {
                    match self.recover_from_db(node_hash) {
                        Ok(recovered) => recovered,
                        Err(e) => {
                            return Err(e);
                        },
                    }
                };
                match recovered {
                    Some(node) => self.get_at(&node, path, path_index, (budget - 1) as usize),
                    None => Err(
                        TrieError::MissingTrieNode {
                            node_hash,
                            traversed: Some(path.slice(0, path_index)),
                            root_hash: Some(self.root_hash),
                            err_key: None,
                        },
                    ),
                }
            },
        }
    }

    /// The node held under the digest `key`, decoded; `None` where none is
    /// held.
    pub fn recover_from_db(&self, key: H256) -> (found: TrieResult<Option<Node>>)
        ensures
            match found {
                Ok(Some(node)) => self@.nodes.contains_key(key@) && decode(self@.nodes[key@])
                    == Some(node@) && node@.wf(),
                Ok(None) => !self@.nodes.contains_key(key@),
                Err(e) => self@.nodes.contains_key(key@) && decode(self@.nodes[key@]) is None
                    && e == TrieError::InvalidData,
            },
    {
        match self.nodes.get(&key) {
            Some(value) => match decode_node(value.as_slice()) {
                Ok(node) => Ok(Some(node)),
                Err(e) => Err(e),
            },
            None => Ok(None),
        }
    }
}

/// A copy of an optional byte string.
fn copy_of(value: &Option<Vec<u8>>) -> (copy: Option<Vec<u8>>)
    ensures
        bytes_of(copy) == bytes_of(*value),
{
    match value {
        Some(bytes) => Some(bytes.clone()),
        None => None,
    }
}

} // verus!
