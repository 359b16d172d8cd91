//! From the encoding of a node to the node.

use vstd::prelude::*;
use crate::digest::{H256, HASHED_LENGTH};
use crate::encoding::{
    is_empty, item, payload, prototype, rlp_is_empty, rlp_item, rlp_payload, rlp_prototype, Shape,
};
use crate::errors::{TrieError, TrieResult};
use crate::nibbles::{compact_path, Nibbles, TERMINATOR};
use crate::node::{bytes_of, lemma_trees_of, trees_of, Node, Tree};

verus! {

/// Number of children of a branch.
pub const BRANCH_WIDTH: usize = 16;

/// What an encoded node is, going by its outline.
#[derive(Debug, Clone, Copy, PartialEq, Eq, Structural)]
pub enum Kind {
    /// The empty string: the empty node.
    Empty,
    /// A list of two items: a leaf or an extension.
    Pair,
    /// A list of 17 items: a branch.
    Branch,
    /// A string of 32 bytes: a pointer.
    Pointer,
}

/// The kind of node that has the outline `shape`, if one has.
pub open spec fn kind_of(shape: Shape) -> Option<Kind> {
    match shape {
        Shape::Data(len) => if len == 0 {
            Some(Kind::Empty)
        } else if len == HASHED_LENGTH {
            Some(Kind::Pointer)
        } else {
            None
        },
        Shape::List(count) => if count == 2 {
            Some(Kind::Pair)
        } else if count == BRANCH_WIDTH + 1 {
            Some(Kind::Branch)
        } else {
            None
        },
        Shape::Null => None,
    }
}

/// The kind of node that has the outline `shape`; `None` where no node has
/// it.
pub fn classify(shape: Shape) -> (kind: Option<Kind>)
    ensures
        kind == kind_of(shape),
{
    match shape {
        Shape::Data(len) => {
            if len == 0 {
                Some(Kind::Empty)
            } else if len == HASHED_LENGTH {
                Some(Kind::Pointer)
            } else {
                None
            }
        },
        Shape::List(count) => {
            if count == 2 {
                Some(Kind::Pair)
            } else if count == BRANCH_WIDTH + 1 {
                Some(Kind::Branch)
            } else {
                None
            }
        },
        Shape::Null => None,
    }
}

/// The encoding of the item at `index` of the list that `data` encodes. An
/// item lies inside its list, so it is shorter than `data`.
pub open spec fn item_of(data: Seq<u8>, index: int) -> Option<Seq<u8>> {
    match rlp_item(data, index) {
        Some(bytes) => if bytes.len() < data.len() {
            Some(bytes)
        } else {
            None
        },
        None => None,
    }
}

/// The payload of the item at `index` of the list that `data` encodes.
pub open spec fn payload_of_item(data: Seq<u8>, index: int) -> Option<Seq<u8>> {
    match item_of(data, index) {
        Some(bytes) => rlp_payload(bytes),
        None => None,
    }
}

/// Whether `path` ends in the marker.
pub open spec fn ends_in_value(path: Seq<u8>) -> bool {
    path.len() > 0 && path.last() == TERMINATOR
}

/// The node that `data` encodes, if it encodes one.
///
/// - The empty string is the empty node.
/// - A list of two items is a leaf or an extension. The first item is the
///   compact encoding of a path. If the path ends in the marker, the second
///   item is the leaf's value, else it is the encoding of the extension's
///   child.
/// - A list of 17 items is a branch: 16 encoded children, then the branch's
///   own value, which the empty string leaves out.
/// - A string of 32 bytes is a pointer to the node with that digest.
pub open spec fn decode(data: Seq<u8>) -> Option<Tree>
    decreases data.len(), BRANCH_WIDTH + 1,
{
    match rlp_prototype(data) {
        Some(shape) => match kind_of(shape) {
            Some(Kind::Empty) => Some(Tree::Empty),
            Some(Kind::Pair) => match payload_of_item(data, 0) {
                Some(compact) => match compact_path(compact) {
                    Some(path) => if ends_in_value(path) {
                        match payload_of_item(data, 1) {
                            Some(value) => Some(Tree::Leaf { key: path, value }),
                            None => None,
                        }
                    } else {
                        match item_of(data, 1) {
                            Some(bytes) => match decode(bytes) {
                                Some(child) => Some(
                                    Tree::Extension { prefix: path, node: Box::new(child) },
                                ),
                                None => None,
                            },
                            None => None,
                        }
                    },
                    None => None,
                },
                None => None,
            },
            Some(Kind::Branch) => match decode_children(data, BRANCH_WIDTH as nat) {
                Some(children) => match decode_value(data) {
                    Some(value) => Some(Tree::Branch { children, value }),
                    None => None,
                },
                None => None,
            },
            Some(Kind::Pointer) => decode_pointer(data),
            None => None,
        },
        None => None,
    }
}

/// The first `count` children of the branch that `data` encodes, if each of
/// them is the encoding of a node.
pub open spec fn decode_children(data: Seq<u8>, count: nat) -> Option<Seq<Tree>>
    decreases data.len(), count,
{
    if count == 0 {
        Some(Seq::empty())
    } else {
        match decode_children(data, (count - 1) as nat) {
            Some(before) => match item_of(data, count - 1) {
                Some(bytes) => match decode(bytes) {
                    Some(child) => Some(before.push(child)),
                    None => None,
                },
                None => None,
            },
            None => None,
        }
    }
}

/// The value held by the branch that `data` encodes: its last item. The
/// outer `None` says that the item cannot be read, the inner one that the
/// branch holds no value.
pub open spec fn decode_value(data: Seq<u8>) -> Option<Option<Seq<u8>>> {
    match item_of(data, BRANCH_WIDTH as int) {
        Some(bytes) => if rlp_is_empty(bytes) {
            Some(None)
        } else {
            match rlp_payload(bytes) {
                Some(value) => Some(Some(value)),
                None => None,
            }
        },
        None => None,
    }
}

/// The pointer that the string `data` encodes, if its payload has the
/// length of a digest.
pub open spec fn decode_pointer(data: Seq<u8>) -> Option<Tree> {
    match rlp_payload(data) {
        Some(bytes) => if bytes.len() == HASHED_LENGTH {
            Some(Tree::Hash { hash: bytes })
        } else {
            None
        },
        None => None,
    }
}

/// What a decoding function owes: the node that the specification names, or
/// `InvalidData` where it names none.
pub open spec fn decoded_as(found: TrieResult<Node>, want: Option<Tree>) -> bool {
    match found {
        Ok(node) => want == Some(node@) && node@.wf(),
        Err(e) => want is None && e == TrieError::InvalidData,
    }
}

/// Decodes the node that `data` encodes.
pub fn decode_node(data: &[u8]) -> (found: TrieResult<Node>)
    ensures
        decoded_as(found, decode(data@)),
    decreases data@.len(), 1nat,
{
    let shape = match prototype(data) {
        Ok(shape) => shape,
        Err(e) => {
            return Err(TrieError::from(e));
        },
    };
    match classify(shape) {
        Some(Kind::Empty) => Ok(Node::Empty),
        Some(Kind::Pair) => decode_pair(data),
        Some(Kind::Branch) => decode_branch(data),
        Some(Kind::Pointer) => decode_pointer_node(data),
        None => Err(TrieError::InvalidData),
    }
}

/// The payload of the item at `index` of the list `data`.
fn payload_at(data: &[u8], index: usize) -> (found: TrieResult<&[u8]>)
    ensures
        match found {
            Ok(bytes) => payload_of_item(data@, index as int) == Some(bytes@),
            Err(e) => payload_of_item(data@, index as int) is None && e == TrieError::InvalidData,
        },
{
    match item(data, index) {
        Ok(bytes) => match payload(bytes) {
            Ok(inner) => Ok(inner),
            Err(e) => Err(TrieError::from(e)),
        },
        Err(e) => Err(TrieError::from(e)),
    }
}

/// Decodes a list of two items: a leaf or an extension.
fn decode_pair(data: &[u8]) -> (found: TrieResult<Node>)
    requires
        rlp_prototype(data@) == Some(Shape::List(2)),
    ensures
        decoded_as(found, decode(data@)),
    decreases data@.len(), 0nat,
{
    let compact = match payload_at(data, 0) {
        Ok(compact) => compact,
        Err(e) => {
            return Err(e);
        },
    };
    let key = match Nibbles::from_compact(compact) {
        Ok(key) => key,
        Err(e) => {
            return Err(e);
        },
    };
    if key.is_leaf() {
        match payload_at(data, 1) {
            Ok(value) => Ok(Node::from_leaf(key, vstd::slice::slice_to_vec(value))),
            Err(e) => Err(e),
        }
    } else {
        let bytes = match item(data, 1) {
            Ok(bytes) => bytes,
            Err(e) => {
                return Err(TrieError::from(e));
            },
        };
        match decode_node(bytes) {
            Ok(child) => Ok(Node::from_extension(key, child)),
            Err(e) => Err(e),
        }
    }
}

/// Decodes a list of 17 items: a branch.
fn decode_branch(data: &[u8]) -> (found: TrieResult<Node>)
    requires
        rlp_prototype(data@) == Some(Shape::List(17)),
    ensures
        decoded_as(found, decode(data@)),
    decreases data@.len(), 0nat,
{
    let mut nodes: Vec<Node> = Vec::new();
    let mut i: usize = 0;
    while i < BRANCH_WIDTH
        invariant
            rlp_prototype(data@) == Some(Shape::List(17)),
            i <= BRANCH_WIDTH,
            nodes@.len() == i,
            decode_children(data@, i as nat) == Some(trees_of(nodes@)),
            forall|j: int| 0 <= j < i ==> (#[trigger] nodes@[j])@.wf(),
        decreases BRANCH_WIDTH - i,
    {
        let bytes = match item(data, i) {
            Ok(bytes) => bytes,
            Err(e) => {
                proof {
                    assert(decode_children(data@, (i + 1) as nat) is None);
                    lemma_children_stay_unreadable(data@, (i + 1) as nat, BRANCH_WIDTH as nat);
                }
                return Err(TrieError::from(e));
            },
        };
        let child = match decode_node(bytes) {
            Ok(child) => child,
            Err(e) => {
                proof {
                    assert(decode_children(data@, (i + 1) as nat) is None);
                    lemma_children_stay_unreadable(data@, (i + 1) as nat, BRANCH_WIDTH as nat);
                }
                return Err(e);
            },
        };
        let ghost before = nodes@;
        nodes.push(child);
        proof {
            assert(nodes@.drop_last() == before);
            assert(trees_of(nodes@) == trees_of(before).push(child@));
        }
        i += 1;
    }
    // The last element is the branch's own value.
    let value_bytes = match item(data, BRANCH_WIDTH) {
        Ok(bytes) => bytes,
        Err(e) => {
            return Err(TrieError::from(e));
        },
    };
    let value: Option<Vec<u8>> = if is_empty(value_bytes) {
        None
    } else {
        match payload(value_bytes) {
            Ok(inner) => Some(vstd::slice::slice_to_vec(inner)),
            Err(e) => {
                return Err(TrieError::from(e));
            },
        }
    };
    proof {
        lemma_trees_of(nodes@);
        assert(decode_value(data@) == Some(bytes_of(value)));
    }
    Ok(Node::from_branch(nodes, value))
}

/// Decodes a string of 32 bytes: a pointer.
fn decode_pointer_node(data: &[u8]) -> (found: TrieResult<Node>)
    requires
        rlp_prototype(data@) == Some(Shape::Data(32)),
    ensures
        decoded_as(found, decode(data@)),
{
    match payload(data) {
        Ok(bytes) => {
            if bytes.len() == HASHED_LENGTH {
                Ok(Node::from_hash(H256::from_slice(bytes)))
            } else {
                Err(TrieError::InvalidData)
            }
        },
        Err(e) => Err(TrieError::from(e)),
    }
}

/// Once one child cannot be decoded, no longer run of children can.
proof fn lemma_children_stay_unreadable(data: Seq<u8>, count: nat, more: nat)
    requires
        count <= more,
        decode_children(data, count) is None,
    ensures
        decode_children(data, more) is None,
    decreases more,
{
    if count < more {
        lemma_children_stay_unreadable(data, count, (more - 1) as nat);
        assert(decode_children(data, more) is None);
    }
}

} // verus!
