use anchor_lang::solana_program::keccak;
use mpt_proof::digest::H256;
use mpt_proof::errors::TrieError;
use mpt_proof::nibbles::Nibbles;
use mpt_proof::node::{empty_children, Node};
use mpt_proof::trie::EthTrie;
use rlp::RlpStream;

fn hash_of(bytes: &[u8]) -> H256 {
    H256(keccak::hash(bytes).0)
}

fn leaf_node(compact_key: &[u8], value: &[u8]) -> Vec<u8> {
    let mut stream = RlpStream::new_list(2);
    stream.append(&compact_key.to_vec());
    stream.append(&value.to_vec());
    stream.out().to_vec()
}

fn extension_node(compact_key: &[u8], child: &[u8]) -> Vec<u8> {
    let mut stream = RlpStream::new_list(2);
    stream.append(&compact_key.to_vec());
    stream.append_raw(child, 1);
    stream.out().to_vec()
}

fn branch_node(children: &[(usize, Vec<u8>)], value: Option<&[u8]>) -> Vec<u8> {
    let mut stream = RlpStream::new_list(17);
    for i in 0..16 {
        match children.iter().find(|(at, _)| *at == i) {
            Some((_, node)) => stream.append_raw(node, 1),
            None => stream.append_empty_data(),
        };
    }
    match value {
        Some(v) => stream.append(&v.to_vec()),
        None => stream.append_empty_data(),
    };
    stream.out().to_vec()
}

fn reference(node: &[u8]) -> Vec<u8> {
    let mut stream = RlpStream::new();
    stream.append(&hash_of(node).0.to_vec());
    stream.out().to_vec()
}

/// A trie with three keys: `12 34` bound to 40 bytes of `aa`, `12 56` bound
/// to `07`, and `12` bound to "branch". Its nodes are the root (an
/// extension), a branch, and the leaf of `12 34`; the leaf of `12 56` lies
/// inside the branch.
struct Sample {
    root: H256,
    extension: Vec<u8>,
    branch: Vec<u8>,
    leaf: Vec<u8>,
}

fn long_value() -> Vec<u8> {
    vec![0xaa; 40]
}

fn sample() -> Sample {
    let leaf = leaf_node(&[0x34], &long_value());
    assert!(leaf.len() >= 32);
    let inline_leaf = leaf_node(&[0x36], &[0x07]);
    assert!(inline_leaf.len() < 32);
    let branch = branch_node(&[(3, reference(&leaf)), (5, inline_leaf)], Some(b"branch"));
    let extension = extension_node(&[0x00, 0x12], &reference(&branch));
    Sample { root: hash_of(&extension), extension, branch, leaf }
}

#[test]
fn value_behind_extension_branch_and_leaf() {
    let s = sample();
    let proof = vec![s.extension, s.branch, s.leaf];
    assert_eq!(EthTrie::verify_proof(s.root, &[0x12, 0x34], proof), Ok(Some(long_value())));
}

#[test]
fn value_of_a_leaf_inside_its_branch() {
    let s = sample();
    let proof = vec![s.extension, s.branch];
    assert_eq!(EthTrie::verify_proof(s.root, &[0x12, 0x56], proof), Ok(Some(vec![0x07])));
}

#[test]
fn value_of_the_branch_itself() {
    let s = sample();
    let proof = vec![s.extension, s.branch];
    assert_eq!(EthTrie::verify_proof(s.root, &[0x12], proof), Ok(Some(b"branch".to_vec())));
}

#[test]
fn absent_under_an_empty_child() {
    let s = sample();
    let proof = vec![s.extension, s.branch];
    assert_eq!(EthTrie::verify_proof(s.root, &[0x12, 0x78], proof), Ok(None));
}

#[test]
fn absent_where_the_extension_does_not_match() {
    let s = sample();
    assert_eq!(EthTrie::verify_proof(s.root, &[0x99], vec![s.extension.clone()]), Ok(None));
    assert_eq!(EthTrie::verify_proof(s.root, &[0x13, 0x34], vec![s.extension.clone()]), Ok(None));
    assert_eq!(EthTrie::verify_proof(s.root, &[], vec![s.extension]), Ok(None));
}

#[test]
fn absent_where_the_leaf_has_another_path() {
    let s = sample();
    let proof = vec![s.extension, s.branch, s.leaf];
    assert_eq!(EthTrie::verify_proof(s.root, &[0x12, 0x35], proof), Ok(None));
}

#[test]
fn leaf_match_is_of_the_whole_path() {
    let s = sample();
    let proof = vec![s.extension, s.branch, s.leaf];
    assert_eq!(EthTrie::verify_proof(s.root, &[0x12, 0x34, 0x00], proof.clone()), Ok(None));
    assert_eq!(EthTrie::verify_proof(s.root, &[0x12, 0x56, 0x00], proof), Ok(None));
}

#[test]
fn order_of_the_entries_does_not_matter() {
    let s = sample();
    let proof = vec![s.leaf, s.branch, s.extension];
    assert_eq!(EthTrie::verify_proof(s.root, &[0x12, 0x34], proof), Ok(Some(long_value())));
}

#[test]
fn entries_beside_the_path_do_not_matter() {
    let s = sample();
    let short = vec![s.extension.clone(), s.branch.clone()];
    let long = vec![vec![0xde; 50], s.extension, leaf_node(&[0x20], &[1]), s.branch, s.leaf];
    let answer = EthTrie::verify_proof(s.root, &[0x12, 0x56], short);
    assert_eq!(answer, Ok(Some(vec![0x07])));
    assert_eq!(EthTrie::verify_proof(s.root, &[0x12, 0x56], long), answer);
}

#[test]
fn entry_given_twice() {
    let s = sample();
    let proof = vec![s.extension.clone(), s.branch.clone(), s.branch, s.extension, s.leaf];
    assert_eq!(EthTrie::verify_proof(s.root, &[0x12, 0x34], proof), Ok(Some(long_value())));
}

#[test]
fn proof_without_the_leaf_is_refused() {
    let s = sample();
    let proof = vec![s.extension, s.branch];
    assert_eq!(EthTrie::verify_proof(s.root, &[0x12, 0x34], proof), Err(TrieError::InvalidProof));
}

#[test]
fn proof_without_the_branch_is_refused() {
    let s = sample();
    let proof = vec![s.extension, s.leaf];
    assert_eq!(EthTrie::verify_proof(s.root, &[0x12, 0x34], proof.clone()), Err(TrieError::InvalidProof));
    assert_eq!(EthTrie::verify_proof(s.root, &[0x12, 0x78], proof), Err(TrieError::InvalidProof));
}

#[test]
fn proof_without_the_root_is_refused() {
    let s = sample();
    let proof = vec![s.branch, s.leaf];
    assert_eq!(EthTrie::verify_proof(s.root, &[0x12, 0x34], proof), Err(TrieError::InvalidProof));
}

#[test]
fn every_altered_byte_of_the_leaf_is_detected() {
    let s = sample();
    for at in 0..s.leaf.len() {
        let mut leaf = s.leaf.clone();
        leaf[at] ^= 0x01;
        let proof = vec![s.extension.clone(), s.branch.clone(), leaf];
        assert_eq!(
            EthTrie::verify_proof(s.root, &[0x12, 0x34], proof),
            Err(TrieError::InvalidProof)
        );
    }
}

#[test]
fn every_altered_byte_of_the_branch_is_detected() {
    let s = sample();
    for at in 0..s.branch.len() {
        let mut branch = s.branch.clone();
        branch[at] ^= 0x80;
        let proof = vec![s.extension.clone(), branch, s.leaf.clone()];
        assert_eq!(
            EthTrie::verify_proof(s.root, &[0x12, 0x34], proof),
            Err(TrieError::InvalidProof)
        );
    }
}

#[test]
fn every_altered_byte_of_the_root_is_detected() {
    let s = sample();
    for at in 0..s.extension.len() {
        let mut extension = s.extension.clone();
        extension[at] ^= 0x10;
        let proof = vec![extension, s.branch.clone(), s.leaf.clone()];
        assert_eq!(
            EthTrie::verify_proof(s.root, &[0x12, 0x34], proof),
            Err(TrieError::InvalidProof)
        );
    }
}

#[test]
fn altered_entry_beside_the_path_does_no_harm() {
    let s = sample();
    let mut leaf = s.leaf.clone();
    leaf[5] ^= 0x01;
    let proof = vec![s.extension, s.branch, leaf];
    assert_eq!(EthTrie::verify_proof(s.root, &[0x12, 0x56], proof), Ok(Some(vec![0x07])));
}

#[test]
fn wrong_root_is_refused() {
    let s = sample();
    let proof = vec![s.extension, s.branch, s.leaf];
    assert_eq!(
        EthTrie::verify_proof(H256([0x11; 32]), &[0x12, 0x34], proof),
        Err(TrieError::InvalidProof)
    );
}

#[test]
fn short_entry_that_is_not_the_root_is_dropped() {
    // A root that points at a node of fewer than 32 bytes: the verifier
    // keeps no such entry, so the pointer stays unresolved.
    let small = leaf_node(&[0x20, 0x12], &[0x01]);
    assert!(small.len() < 32);
    let root_node = extension_node(&[0x00], &reference(&small));
    let root = hash_of(&root_node);
    let proof = vec![root_node, small];
    assert_eq!(EthTrie::verify_proof(root, &[0x12], proof), Err(TrieError::InvalidProof));
}

#[test]
fn short_root_is_kept() {
    let root_node = leaf_node(&[0x20, 0x12], &[0x01]);
    assert!(root_node.len() < 32);
    let root = hash_of(&root_node);
    assert_eq!(EthTrie::verify_proof(root, &[0x12], vec![root_node]), Ok(Some(vec![0x01])));
}

#[test]
fn malformed_node_on_the_path_is_refused() {
    let junk = vec![0xc3, 0x01, 0x02, 0x03];
    let root = hash_of(&junk);
    assert_eq!(EthTrie::verify_proof(root, &[0x12], vec![junk]), Err(TrieError::InvalidProof));
}

#[test]
fn malformed_node_behind_an_unvisited_pointer_is_not_met() {
    let junk = vec![0x55; 40];
    let branch = branch_node(&[(1, reference(&junk)), (2, leaf_node(&[0x33], &[0x09]))], None);
    let root = hash_of(&branch);
    let proof = vec![branch, junk];
    assert_eq!(EthTrie::verify_proof(root, &[0x23], proof.clone()), Ok(Some(vec![0x09])));
    assert_eq!(EthTrie::verify_proof(root, &[0x13], proof), Err(TrieError::InvalidProof));
}

#[test]
fn repeated_verification_gives_the_same_answer() {
    let s = sample();
    let proof = vec![s.extension, s.branch, s.leaf];
    let key = [0x12, 0x34];
    let first = EthTrie::verify_proof(s.root, &key, proof.clone());
    let second = EthTrie::verify_proof(s.root, &key, proof.clone());
    assert_eq!(first, second);
    assert_eq!(first, Ok(Some(long_value())));
    let missing = EthTrie::verify_proof(s.root, &key, proof[..2].to_vec());
    assert_eq!(missing, EthTrie::verify_proof(s.root, &key, proof[..2].to_vec()));
}

#[test]
fn trie_reports_the_missing_node() {
    let s = sample();
    let keys = vec![hash_of(&s.extension).0.to_vec(), hash_of(&s.branch).0.to_vec()];
    let values = vec![s.extension.clone(), s.branch.clone()];
    let trie = EthTrie::new(keys, values, s.root);
    assert_eq!(trie.get(&[0x12, 0x56]), Ok(Some(vec![0x07])));
    assert_eq!(
        trie.get(&[0x12, 0x34]),
        Err(TrieError::MissingTrieNode {
            node_hash: hash_of(&s.leaf),
            traversed: Some(Nibbles::from_hex(&[1, 2, 3])),
            root_hash: Some(s.root),
            err_key: Some(vec![0x12, 0x34]),
        })
    );
}

#[test]
fn trie_without_nodes_misses_the_root() {
    let root = H256([0x42; 32]);
    let trie = EthTrie::new(vec![], vec![], root);
    assert_eq!(
        trie.get(&[0x01]),
        Err(TrieError::MissingTrieNode {
            node_hash: root,
            traversed: Some(Nibbles::from_hex(&[])),
            root_hash: Some(root),
            err_key: Some(vec![0x01]),
        })
    );
}

#[test]
fn trie_reports_invalid_data() {
    let root = H256([0x42; 32]);
    let trie = EthTrie::new(vec![root.0.to_vec()], vec![vec![0x83, 1, 2, 3]], root);
    assert_eq!(trie.get(&[0x01]), Err(TrieError::InvalidData));
}

#[test]
fn trie_keeps_the_later_of_two_nodes_under_one_digest() {
    let root = H256([0x42; 32]);
    let keys = vec![root.0.to_vec(), root.0.to_vec()];
    let values = vec![leaf_node(&[0x20, 0x01], &[0x0a]), leaf_node(&[0x20, 0x01], &[0x0b])];
    let trie = EthTrie::new(keys, values, root);
    assert_eq!(trie.get(&[0x01]), Ok(Some(vec![0x0b])));
}

#[test]
fn trie_ignores_keys_that_are_no_digests() {
    let root = H256([0x42; 32]);
    let keys = vec![vec![0x42; 31], vec![0x42; 33]];
    let values = vec![leaf_node(&[0x20, 0x01], &[0x0a]), leaf_node(&[0x20, 0x01], &[0x0b])];
    let trie = EthTrie::new(keys, values, root);
    assert!(matches!(trie.get(&[0x01]), Err(TrieError::MissingTrieNode { .. })));
}

#[test]
fn nodes_that_point_in_a_circle_are_refused() {
    // An extension with the empty prefix, bound to the very digest that it
    // points at.
    let root = H256([0x42; 32]);
    let mut pointer = RlpStream::new();
    pointer.append(&root.0.to_vec());
    let circle = extension_node(&[0x00], &pointer.out());
    let trie = EthTrie::new(vec![root.0.to_vec()], vec![circle.clone()], root);
    assert!(matches!(
        trie.get(&[0x01]),
        Err(TrieError::MissingTrieNode { node_hash, .. }) if node_hash == root
    ));
    assert_eq!(
        EthTrie::verify_proof(hash_of(&circle), &[0x01], vec![circle]),
        Err(TrieError::InvalidProof)
    );
}

#[test]
fn descent_through_nodes_made_by_hand() {
    let trie = EthTrie::new(vec![], vec![], H256([0; 32]));
    let path = Nibbles::from_raw(&[0x5a], true);

    assert_eq!(trie.get_at(&Node::Empty, &path, 0, 0), Ok(None));

    let leaf = Node::from_leaf(Nibbles::from_hex(&[10, 16]), vec![1]);
    assert_eq!(trie.get_at(&leaf, &path, 1, 0), Ok(Some(vec![1])));
    assert_eq!(trie.get_at(&leaf, &path, 0, 0), Ok(None));

    let mut children = empty_children();
    assert_eq!(children.len(), 16);
    children[5] = Node::from_leaf(Nibbles::from_hex(&[10, 16]), vec![2]);
    let branch = Node::from_branch(children, Some(vec![3]));
    assert_eq!(trie.get_at(&branch, &path, 0, 0), Ok(Some(vec![2])));
    assert_eq!(trie.get_at(&branch, &path, 1, 0), Ok(None));
    assert_eq!(trie.get_at(&branch, &path, 2, 0), Ok(Some(vec![3])));
    assert_eq!(trie.get_at(&branch, &path, 3, 0), Ok(Some(vec![3])));

    let extension = Node::from_extension(Nibbles::from_hex(&[5]), Node::from_leaf(Nibbles::from_hex(&[10, 16]), vec![4]));
    assert_eq!(trie.get_at(&extension, &path, 0, 0), Ok(Some(vec![4])));
    assert_eq!(trie.get_at(&extension, &path, 1, 0), Ok(None));

    let pointer = Node::from_hash(H256([9; 32]));
    assert_eq!(
        trie.get_at(&pointer, &path, 1, 5),
        Err(TrieError::MissingTrieNode {
            node_hash: H256([9; 32]),
            traversed: Some(Nibbles::from_hex(&[5])),
            root_hash: Some(H256([0; 32])),
            err_key: None,
        })
    );
}

#[test]
fn recover_from_db_decodes_what_is_held() {
    let digest = H256([0x42; 32]);
    let trie = EthTrie::new(vec![digest.0.to_vec()], vec![leaf_node(&[0x20, 0x01], &[0x0a])], digest);
    assert!(matches!(trie.recover_from_db(digest), Ok(Some(Node::Leaf(_)))));
    assert!(matches!(trie.recover_from_db(H256([0x43; 32])), Ok(None)));
}

#[test]
fn verifier_keeps_the_root_and_long_entries() {
    let root = H256([1; 32]);
    let other = H256([2; 32]);
    assert!(EthTrie::keeps(&root, &root, 0));
    assert!(EthTrie::keeps(&root, &root, 5));
    assert!(!EthTrie::keeps(&root, &other, 31));
    assert!(EthTrie::keeps(&root, &other, 32));
    assert!(EthTrie::keeps(&root, &other, 500));
}

#[test]
fn trie_takes_more_values_than_keys() {
    let root = H256([0x42; 32]);
    let keys = vec![root.0.to_vec()];
    let values = vec![leaf_node(&[0x20, 0x01], &[0x0a]), vec![1, 2, 3]];
    let trie = EthTrie::new(keys, values, root);
    assert_eq!(trie.get(&[0x01]), Ok(Some(vec![0x0a])));
}
