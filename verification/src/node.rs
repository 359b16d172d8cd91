//! The five kinds of trie node.

use vstd::prelude::*;
use std::sync::Arc;
use crate::digest::H256;
use crate::nibbles::Nibbles;

verus! {

/// A trie node, or a pointer to one.
#[derive(Debug, Clone)]
pub enum Node {
    /// No subtree.
    Empty,
    /// The end of a key, with its value.
    Leaf(Arc<LeafNode>),
    /// A stretch of nibbles shared by all keys below.
    Extension(Arc<ExtensionNode>),
    /// A fork by the next nibble.
    Branch(Arc<BranchNode>),
    /// The digest of a node held elsewhere.
    Hash(Arc<HashNode>),
}

#[derive(Debug)]
pub struct LeafNode {
    pub key: Nibbles,
    pub value: Vec<u8>,
}

#[derive(Debug)]
pub struct BranchNode {
    pub children: Vec<Node>,
    pub value: Option<Vec<u8>>,
}

#[derive(Debug)]
pub struct ExtensionNode {
    pub prefix: Nibbles,
    pub node: Node,
}

#[derive(Debug)]
pub struct HashNode {
    pub hash: H256,
}

/// The mathematical content of a [`Node`].
#[allow(inconsistent_fields)]
pub enum Tree {
    Empty,
    Leaf { key: Seq<u8>, value: Seq<u8> },
    Extension { prefix: Seq<u8>, node: Box<Tree> },
    Branch { children: Seq<Tree>, value: Option<Seq<u8>> },
    Hash { hash: Seq<u8> },
}

impl Tree {
    /// Whether every branch of the tree has its 16 children.
    pub open spec fn wf(self) -> bool
        decreases self,
    {
        match self {
            Tree::Extension { node, .. } => node.wf(),
            Tree::Branch { children, .. } => {
                &&& children.len() == 16
                &&& forall|i: int| 0 <= i < children.len() ==> (#[trigger] children[i]).wf()
            },
            _ => true,
        }
    }
}

/// The content of each node of `nodes`, in order.
pub open spec fn trees_of(nodes: Seq<Node>) -> Seq<Tree>
    decreases nodes,
{
    if nodes.len() == 0 {
        Seq::empty()
    } else {
        trees_of(nodes.drop_last()).push(nodes.last()@)
    }
}

/// [`trees_of`] keeps the length, and holds at each place the content of
/// the node at that place.
pub proof fn lemma_trees_of(nodes: Seq<Node>)
    ensures
        trees_of(nodes).len() == nodes.len(),
        forall|i: int| 0 <= i < nodes.len() ==> (#[trigger] trees_of(nodes)[i]) == nodes[i]@,
    decreases nodes.len(),
{
    if nodes.len() == 0 {
        assert(trees_of(nodes) == Seq::<Tree>::empty());
    } else {
        lemma_trees_of(nodes.drop_last());
        assert(trees_of(nodes) == trees_of(nodes.drop_last()).push(nodes.last()@));
    }
}

/// The content of an optional byte string.
pub open spec fn bytes_of(value: Option<Vec<u8>>) -> Option<Seq<u8>> {
    match value {
        Some(v) => Some(v@),
        None => None,
    }
}

impl Node {
    /// A leaf that binds `value` to the rest of a key, `key`.
    pub fn from_leaf(key: Nibbles, value: Vec<u8>) -> (node: Node)
        ensures
            node@ == (Tree::Leaf { key: key@, value: value@ }),
    {
        let leaf = Arc::new(LeafNode { key, value });
        Node::Leaf(leaf)
    }

    /// A branch over `children`, with the value of the key that ends here.
    /// The children are taken as they come: a branch is well formed only
    /// with 16 of them.
    pub fn from_branch(children: Vec<Node>, value: Option<Vec<u8>>) -> (node: Node)
        ensures
            node@ == (Tree::Branch { children: trees_of(children@), value: bytes_of(value) }),
    {
        let branch = Arc::new(BranchNode { children, value });
        Node::Branch(branch)
    }

    /// An extension that leads through `prefix` to `node`.
    pub fn from_extension(prefix: Nibbles, node: Node) -> (ext: Node)
        ensures
            ext@ == (Tree::Extension { prefix: prefix@, node: Box::new(node@) }),
    {
        let ext = Arc::new(ExtensionNode { prefix, node });
        Node::Extension(ext)
    }

    /// A pointer to the node whose digest is `hash`.
    pub fn from_hash(hash: H256) -> (node: Node)
        ensures
            node@ == (Tree::Hash { hash: hash@ }),
    {
        let hash_node = Arc::new(HashNode { hash });
        Node::Hash(hash_node)
    }
}

/// The children of a branch under which nothing lies: 16 empty nodes.
pub fn empty_children() -> (children: Vec<Node>)
    ensures
        trees_of(children@) == Seq::new(16, |i: int| Tree::Empty),
{
    let mut children: Vec<Node> = Vec::new();
    let mut i: usize = 0;
    while i < 16
        invariant
            i <= 16,
            children@.len() == i,
            forall|j: int| 0 <= j < i ==> children@[j]@ == Tree::Empty,
        decreases 16 - i,
    {
        children.push(Node::Empty);
        i += 1;
    }
    proof {
        lemma_trees_of(children@);
    }
    assert(trees_of(children@) =~= Seq::new(16, |i: int| Tree::Empty));
    children
}

impl View for Node {
    type V = Tree;

    open spec fn view(&self) -> Tree
        decreases self,
    {
        match self {
            Node::Empty => Tree::Empty,
            Node::Leaf(leaf) => Tree::Leaf { key: leaf.key@, value: leaf.value@ },
            Node::Extension(ext) => Tree::Extension {
                prefix: ext.prefix@,
                node: Box::new(ext.node@),
            },
            Node::Branch(branch) => Tree::Branch {
                children: trees_of(branch.children@),
                value: match branch.value {
                    Some(v) => Some(v@),
                    None => None,
                },
            },
            Node::Hash(pointer) => Tree::Hash { hash: pointer.hash@ },
        }
    }
}

} // verus!
