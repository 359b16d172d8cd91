//! What the verifier's answers are worth: theorems on the lookup and on the
//! working set of a proof.

use vstd::prelude::*;
use crate::decode::decode;
use crate::encoding::keccak256;
use crate::errors::{Failure, TrieResult};
use crate::nibbles::{raw_path, TERMINATOR};
use crate::node::Tree;
use crate::trie::{outcome_of, proof_trie, retains, verified, working_set, Outcome, TrieModel};

verus! {

/// Whether every node that `first` holds under one of `digests` is held by
/// `second` too, under the same digest.
pub open spec fn agree_on(
    first: Map<Seq<u8>, Seq<u8>>,
    second: Map<Seq<u8>, Seq<u8>>,
    digests: Seq<Seq<u8>>,
) -> bool {
    forall|i: int|
        0 <= i < digests.len() && first.contains_key(#[trigger] digests[i])
            ==> second.contains_key(digests[i]) && second[digests[i]] == first[digests[i]]
}

/// Whether `outcome` is the failure to find a node.
pub open spec fn is_missing_node(outcome: Outcome) -> bool {
    outcome matches Err(Failure::MissingTrieNode { .. })
}

/// A descent that ends in an answer resolves no more pointers than its
/// budget.
pub proof fn lemma_trail_fits_budget(
    trie: TrieModel,
    budget: nat,
    source: Tree,
    path: Seq<u8>,
    index: int,
)
    requires
        trie.get_at(budget, source, path, index) is Ok,
    ensures
        trie.trail(budget, source, path, index).len() <= budget,
    decreases budget, source,
{
    let partial = path.skip(index);
    match source {
        Tree::Empty => {},
        Tree::Leaf { .. } => {},
        Tree::Branch { children, value } => {
            if partial.len() == 0 || partial[0] == TERMINATOR {
            } else if partial[0] < children.len() {
                lemma_trail_fits_budget(trie, budget, children[partial[0] as int], path, index + 1);
            }
        },
        Tree::Extension { prefix, node } => {
            if prefix.is_prefix_of(partial) {
                lemma_trail_fits_budget(trie, budget, *node, path, index + prefix.len());
            }
        },
        Tree::Hash { hash } => {
            let node = decode(trie.nodes[hash])->Some_0;
            lemma_trail_fits_budget(trie, (budget - 1) as nat, node, path, index);
        },
    }
}

/// A descent that ends in an answer is repeated, step for step, over any
/// nodes that agree with its own on the digests it came to, given budget
/// for as many pointers.
pub proof fn lemma_descent_is_repeated(
    first: TrieModel,
    second: TrieModel,
    first_budget: nat,
    second_budget: nat,
    source: Tree,
    path: Seq<u8>,
    index: int,
)
    requires
        first.get_at(first_budget, source, path, index) is Ok,
        agree_on(first.nodes, second.nodes, first.trail(first_budget, source, path, index)),
        first.trail(first_budget, source, path, index).len() <= second_budget,
    ensures
        second.get_at(second_budget, source, path, index) == first.get_at(
            first_budget,
            source,
            path,
            index,
        ),
        second.trail(second_budget, source, path, index) == first.trail(
            first_budget,
            source,
            path,
            index,
        ),
    decreases first_budget, source,
{
    let partial = path.skip(index);
    match source {
        Tree::Empty => {},
        Tree::Leaf { .. } => {},
        Tree::Branch { children, value } => {
            if partial.len() == 0 || partial[0] == TERMINATOR {
            } else if partial[0] < children.len() {
                lemma_descent_is_repeated(
                    first,
                    second,
                    first_budget,
                    second_budget,
                    children[partial[0] as int],
                    path,
                    index + 1,
                );
            }
        },
        Tree::Extension { prefix, node } => {
            if prefix.is_prefix_of(partial) {
                lemma_descent_is_repeated(
                    first,
                    second,
                    first_budget,
                    second_budget,
                    *node,
                    path,
                    index + prefix.len(),
                );
            }
        },
        Tree::Hash { hash } => {
            let whole = first.trail(first_budget, source, path, index);
            let node = decode(first.nodes[hash])->Some_0;
            let rest = first.trail((first_budget - 1) as nat, node, path, index);
            assert(whole == seq![hash] + rest);
            assert(whole[0] == hash);
            assert forall|i: int| 0 <= i < rest.len() implies rest[i] == whole[i + 1] by {}
            assert(agree_on(first.nodes, second.nodes, rest)) by {
                assert forall|i: int|
                    0 <= i < rest.len() && first.nodes.contains_key(
                        #[trigger] rest[i],
                    ) implies second.nodes.contains_key(rest[i]) && second.nodes[rest[i]]
                    == first.nodes[rest[i]] by {
                    assert(rest[i] == whole[i + 1]);
                }
            }
            lemma_descent_is_repeated(
                first,
                second,
                (first_budget - 1) as nat,
                (second_budget - 1) as nat,
                node,
                path,
                index,
            );
        },
    }
}

/// A descent fails for want of a node wherever the nodes at hand lack one
/// of the digests that the descent over other nodes comes to, and agree
/// with those other nodes on the rest.
pub proof fn lemma_gap_is_met(
    small: TrieModel,
    large: TrieModel,
    small_budget: nat,
    large_budget: nat,
    source: Tree,
    path: Seq<u8>,
    index: int,
    gap: int,
)
    requires
        agree_on(small.nodes, large.nodes, large.trail(large_budget, source, path, index)),
        0 <= gap < large.trail(large_budget, source, path, index).len(),
        !small.nodes.contains_key(large.trail(large_budget, source, path, index)[gap]),
    ensures
        is_missing_node(small.get_at(small_budget, source, path, index)),
    decreases large_budget, source,
{
    let partial = path.skip(index);
    match source {
        Tree::Empty => {},
        Tree::Leaf { .. } => {},
        Tree::Branch { children, value } => {
            if partial.len() == 0 || partial[0] == TERMINATOR {
            } else if partial[0] < children.len() {
                lemma_gap_is_met(
                    small,
                    large,
                    small_budget,
                    large_budget,
                    children[partial[0] as int],
                    path,
                    index + 1,
                    gap,
                );
            }
        },
        Tree::Extension { prefix, node } => {
            if prefix.is_prefix_of(partial) {
                lemma_gap_is_met(
                    small,
                    large,
                    small_budget,
                    large_budget,
                    *node,
                    path,
                    index + prefix.len(),
                    gap,
                );
            }
        },
        Tree::Hash { hash } => {
            let whole = large.trail(large_budget, source, path, index);
            assert(whole[0] == hash);
            if !small.nodes.contains_key(hash) || small_budget == 0 {
            } else {
                assert(large.nodes.contains_key(hash) && large.nodes[hash] == small.nodes[hash]);
                assert(gap != 0);
                let node = decode(large.nodes[hash])->Some_0;
                let rest = large.trail((large_budget - 1) as nat, node, path, index);
                assert(whole == seq![hash] + rest);
                assert(agree_on(small.nodes, large.nodes, rest)) by {
                    assert forall|i: int|
                        0 <= i < rest.len() && small.nodes.contains_key(
                            #[trigger] rest[i],
                        ) implies large.nodes.contains_key(rest[i]) && large.nodes[rest[i]]
                        == small.nodes[rest[i]] by {
                        assert(rest[i] == whole[i + 1]);
                    }
                }
                assert(rest[gap - 1] == whole[gap]);
                lemma_gap_is_met(
                    small,
                    large,
                    (small_budget - 1) as nat,
                    (large_budget - 1) as nat,
                    node,
                    path,
                    index,
                    gap - 1,
                );
            }
        },
    }
}

/// A digest that no entry of a proof has is not in the proof's working set.
pub proof fn lemma_working_set_lacks(root_hash: Seq<u8>, proof: Seq<Seq<u8>>, digest: Seq<u8>)
    requires
        forall|j: int| 0 <= j < proof.len() ==> keccak256(#[trigger] proof[j]) != digest,
    ensures
        !working_set(root_hash, proof).contains_key(digest),
    decreases proof.len(),
{
    if proof.len() > 0 {
        let earlier = proof.drop_last();
        assert forall|j: int| 0 <= j < earlier.len() implies keccak256(#[trigger] earlier[j])
            != digest by {
            assert(earlier[j] == proof[j]);
        }
        lemma_working_set_lacks(root_hash, earlier, digest);
        assert(keccak256(proof[proof.len() - 1]) != digest);
    }
}

/// To put another entry in the place of one leaves alone what the working
/// set holds under every digest but those of the two.
pub proof fn lemma_working_set_after_change(
    root_hash: Seq<u8>,
    proof: Seq<Seq<u8>>,
    place: int,
    altered: Seq<u8>,
    digest: Seq<u8>,
)
    requires
        0 <= place < proof.len(),
        digest != keccak256(proof[place]),
        digest != keccak256(altered),
    ensures
        working_set(root_hash, proof.update(place, altered)).contains_key(digest) == working_set(
            root_hash,
            proof,
        ).contains_key(digest),
        working_set(root_hash, proof).contains_key(digest) ==> working_set(
            root_hash,
            proof.update(place, altered),
        )[digest] == working_set(root_hash, proof)[digest],
    decreases proof.len(),
{
    let changed = proof.update(place, altered);
    if place == proof.len() - 1 {
        assert(changed.drop_last() == proof.drop_last());
    } else {
        assert(changed.drop_last() == proof.drop_last().update(place, altered));
        assert(changed.last() == proof.last());
        lemma_working_set_after_change(root_hash, proof.drop_last(), place, altered, digest);
    }
}

/// To take an entry out leaves alone what the working set holds under
/// every digest but that of the entry.
pub proof fn lemma_working_set_after_removal(
    root_hash: Seq<u8>,
    proof: Seq<Seq<u8>>,
    place: int,
    digest: Seq<u8>,
)
    requires
        0 <= place < proof.len(),
        digest != keccak256(proof[place]),
    ensures
        working_set(root_hash, proof.remove(place)).contains_key(digest) == working_set(
            root_hash,
            proof,
        ).contains_key(digest),
        working_set(root_hash, proof).contains_key(digest) ==> working_set(
            root_hash,
            proof.remove(place),
        )[digest] == working_set(root_hash, proof)[digest],
    decreases proof.len(),
{
    let fewer = proof.remove(place);
    if place == proof.len() - 1 {
        assert(fewer == proof.drop_last());
    } else {
        assert(fewer.drop_last() == proof.drop_last().remove(place));
        assert(fewer.last() == proof.last());
        lemma_working_set_after_removal(root_hash, proof.drop_last(), place, digest);
    }
}

/// Whether every entry that the verifier keeps of `proof` is a node of
/// `trie`, held there under the entry's digest.
pub open spec fn drawn_from(trie: TrieModel, proof: Seq<Seq<u8>>) -> bool {
    working_set(trie.root_hash, proof).submap_of(trie.nodes)
}

/// Whether `proof` holds a node for each pointer that the lookup of `key`
/// in `trie` comes to, and has an entry for each.
pub open spec fn covers(trie: TrieModel, key: Seq<u8>, proof: Seq<Seq<u8>>) -> bool {
    let trail = trie.trail_of(key);
    &&& trail.len() <= proof.len()
    &&& forall|i: int|
        0 <= i < trail.len() ==> working_set(trie.root_hash, proof).contains_key(#[trigger] trail[i])
}

/// A proof that is drawn from a trie and covers the lookup of a key answers
/// as the trie does, wherever the trie has an answer.
pub proof fn lemma_covering_proof_answers_as_trie(
    trie: TrieModel,
    key: Seq<u8>,
    proof: Seq<Seq<u8>>,
)
    requires
        trie.get(key) is Ok,
        drawn_from(trie, proof),
        covers(trie, key, proof),
    ensures
        verified(trie.root_hash, key, proof) == trie.get(key),
{
    let root = Tree::Hash { hash: trie.root_hash };
    let path = raw_path(key, true);
    let small = proof_trie(trie.root_hash, proof);
    lemma_descent_is_repeated(trie, small, trie.budget, small.budget, root, path, 0);
}

/// Inclusion: where a trie binds `value` to `key`, a proof that is drawn
/// from the trie and covers the lookup of `key` yields exactly `value`.
pub proof fn lemma_inclusion_proof_yields_value(
    trie: TrieModel,
    key: Seq<u8>,
    value: Seq<u8>,
    proof: Seq<Seq<u8>>,
)
    requires
        trie.get(key) == Ok::<Option<Seq<u8>>, Failure>(Some(value)),
        drawn_from(trie, proof),
        covers(trie, key, proof),
    ensures
        verified(trie.root_hash, key, proof) == Ok::<Option<Seq<u8>>, Failure>(Some(value)),
{
    lemma_covering_proof_answers_as_trie(trie, key, proof);
}

/// Exclusion: where a trie binds nothing to `key`, a proof that is drawn
/// from the trie and covers the lookup of `key` says "absent", and fails
/// not.
pub proof fn lemma_exclusion_proof_yields_absence(
    trie: TrieModel,
    key: Seq<u8>,
    proof: Seq<Seq<u8>>,
)
    requires
        trie.get(key) == Ok::<Option<Seq<u8>>, Failure>(None),
        drawn_from(trie, proof),
        covers(trie, key, proof),
    ensures
        verified(trie.root_hash, key, proof) == Ok::<Option<Seq<u8>>, Failure>(None),
{
    lemma_covering_proof_answers_as_trie(trie, key, proof);
}

/// A proof does not lie: what a proof drawn from a trie says of a key, be it
/// a value or "absent", is what the trie says, given that the trie's budget
/// is no smaller than the proof's.
pub proof fn lemma_proof_answers_as_trie(trie: TrieModel, key: Seq<u8>, proof: Seq<Seq<u8>>)
    requires
        verified(trie.root_hash, key, proof) is Ok,
        drawn_from(trie, proof),
        proof.len() <= trie.budget,
    ensures
        trie.get(key) == verified(trie.root_hash, key, proof),
{
    let root = Tree::Hash { hash: trie.root_hash };
    let path = raw_path(key, true);
    let small = proof_trie(trie.root_hash, proof);
    lemma_trail_fits_budget(small, small.budget, root, path, 0);
    lemma_descent_is_repeated(small, trie, small.budget, trie.budget, root, path, 0);
}

/// Insufficiency: a proof drawn from a trie that lacks a node for one of
/// the pointers that the lookup of `key` in the trie comes to is refused. It
/// never passes for "absent".
pub proof fn lemma_insufficient_proof_is_refused(
    trie: TrieModel,
    key: Seq<u8>,
    proof: Seq<Seq<u8>>,
    gap: int,
)
    requires
        drawn_from(trie, proof),
        0 <= gap < trie.trail_of(key).len(),
        !working_set(trie.root_hash, proof).contains_key(trie.trail_of(key)[gap]),
    ensures
        is_missing_node(proof_trie(trie.root_hash, proof).get(key)),
        verified(trie.root_hash, key, proof) == Err::<Option<Seq<u8>>, Failure>(
            Failure::InvalidProof,
        ),
{
    let root = Tree::Hash { hash: trie.root_hash };
    let path = raw_path(key, true);
    let small = proof_trie(trie.root_hash, proof);
    lemma_gap_is_met(small, trie, small.budget, trie.budget, root, path, 0, gap);
}

/// Insufficiency, entry by entry: take out of a proof an entry whose node
/// the lookup of `key` comes to, the only entry with that digest, and what
/// is left is refused for want of that node.
pub proof fn lemma_removed_entry_is_missed(
    root_hash: Seq<u8>,
    key: Seq<u8>,
    proof: Seq<Seq<u8>>,
    place: int,
)
    requires
        0 <= place < proof.len(),
        proof_trie(root_hash, proof).trail_of(key).contains(keccak256(proof[place])),
        forall|j: int|
            0 <= j < proof.len() && j != place ==> keccak256(#[trigger] proof[j]) != keccak256(
                proof[place],
            ),
    ensures
        is_missing_node(proof_trie(root_hash, proof.remove(place)).get(key)),
        verified(root_hash, key, proof.remove(place)) == Err::<Option<Seq<u8>>, Failure>(
            Failure::InvalidProof,
        ),
{
    let whole = proof_trie(root_hash, proof);
    let fewer = proof.remove(place);
    let small = proof_trie(root_hash, fewer);
    let trail = whole.trail_of(key);
    let digest = keccak256(proof[place]);
    let gap = choose|i: int| 0 <= i < trail.len() && trail[i] == digest;
    assert forall|j: int| 0 <= j < fewer.len() implies keccak256(#[trigger] fewer[j])
        != digest by {
        if j < place {
            assert(fewer[j] == proof[j]);
        } else {
            assert(fewer[j] == proof[j + 1]);
        }
    }
    lemma_working_set_lacks(root_hash, fewer, digest);
    assert(agree_on(small.nodes, whole.nodes, trail)) by {
        assert forall|i: int|
            0 <= i < trail.len() && small.nodes.contains_key(
                #[trigger] trail[i],
            ) implies whole.nodes.contains_key(trail[i]) && whole.nodes[trail[i]]
            == small.nodes[trail[i]] by {
            lemma_working_set_after_removal(root_hash, proof, place, trail[i]);
        }
    }
    let root = Tree::Hash { hash: root_hash };
    lemma_gap_is_met(small, whole, small.budget, whole.budget, root, raw_path(key, true), 0, gap);
}

/// Tampering: put other bytes in the place of an entry whose node the
/// lookup of `key` comes to, the only entry with that digest, and the proof
/// is refused, given that the digest of the new bytes is none of those that
/// the lookup comes to.
pub proof fn lemma_altered_entry_is_refused(
    root_hash: Seq<u8>,
    key: Seq<u8>,
    proof: Seq<Seq<u8>>,
    place: int,
    altered: Seq<u8>,
)
    requires
        0 <= place < proof.len(),
        proof_trie(root_hash, proof).trail_of(key).contains(keccak256(proof[place])),
        !proof_trie(root_hash, proof).trail_of(key).contains(keccak256(altered)),
        forall|j: int|
            0 <= j < proof.len() && j != place ==> keccak256(#[trigger] proof[j]) != keccak256(
                proof[place],
            ),
    ensures
        is_missing_node(proof_trie(root_hash, proof.update(place, altered)).get(key)),
        verified(root_hash, key, proof.update(place, altered)) == Err::<Option<Seq<u8>>, Failure>(
            Failure::InvalidProof,
        ),
{
    let whole = proof_trie(root_hash, proof);
    let changed = proof.update(place, altered);
    let small = proof_trie(root_hash, changed);
    let trail = whole.trail_of(key);
    let digest = keccak256(proof[place]);
    let gap = choose|i: int| 0 <= i < trail.len() && trail[i] == digest;
    assert forall|j: int| 0 <= j < changed.len() implies keccak256(#[trigger] changed[j])
        != digest by {
        if j != place {
            assert(changed[j] == proof[j]);
        }
    }
    lemma_working_set_lacks(root_hash, changed, digest);
    assert(agree_on(small.nodes, whole.nodes, trail)) by {
        assert forall|i: int|
            0 <= i < trail.len() && small.nodes.contains_key(
                #[trigger] trail[i],
            ) implies whole.nodes.contains_key(trail[i]) && whole.nodes[trail[i]]
            == small.nodes[trail[i]] by {
            lemma_working_set_after_change(root_hash, proof, place, altered, trail[i]);
        }
    }
    let root = Tree::Hash { hash: root_hash };
    lemma_gap_is_met(small, whole, small.budget, whole.budget, root, raw_path(key, true), 0, gap);
}

/// Verification is a function of its inputs: two answers to the same root,
/// key and proof hold the same.
pub proof fn lemma_same_inputs_same_answer(
    root_hash: Seq<u8>,
    key: Seq<u8>,
    proof: Seq<Seq<u8>>,
    first: TrieResult<Option<Vec<u8>>>,
    second: TrieResult<Option<Vec<u8>>>,
)
    requires
        outcome_of(first) == verified(root_hash, key, proof),
        outcome_of(second) == verified(root_hash, key, proof),
    ensures
        outcome_of(first) == outcome_of(second),
{
}

} // verus!
