//! The nodes of a proof, indexed by digest.

use vstd::prelude::*;
use vstd::bytes::{
    lemma_auto_spec_u128_to_from_le_bytes, spec_u128_from_le_bytes, spec_u128_to_le_bytes,
    u128_from_le_bytes,
};
use vstd::slice::slice_subrange;
use std::collections::HashMap;
use crate::digest::H256;

verus! {

broadcast use vstd::std_specs::hash::group_hash_axioms;

/// The number that the first 16 bytes of a digest spell.
pub open spec fn upper_key(hash: Seq<u8>) -> u128 {
    spec_u128_from_le_bytes(hash.subrange(0, 16))
}

/// The number that the last 16 bytes of a digest spell.
pub open spec fn lower_key(hash: Seq<u8>) -> u128 {
    spec_u128_from_le_bytes(hash.subrange(16, 32))
}

/// Two digests with the same pair of keys are the same digest.
pub proof fn lemma_keys_tell_digests_apart(a: Seq<u8>, b: Seq<u8>)
    requires
        a.len() == 32,
        b.len() == 32,
        upper_key(a) == upper_key(b),
        lower_key(a) == lower_key(b),
    ensures
        a == b,
{
    lemma_auto_spec_u128_to_from_le_bytes();
    assert(a.subrange(0, 16) == spec_u128_to_le_bytes(upper_key(a)));
    assert(b.subrange(0, 16) == spec_u128_to_le_bytes(upper_key(b)));
    assert(a.subrange(16, 32) == spec_u128_to_le_bytes(lower_key(a)));
    assert(b.subrange(16, 32) == spec_u128_to_le_bytes(lower_key(b)));
    assert(a =~= a.subrange(0, 16) + a.subrange(16, 32));
    assert(b =~= b.subrange(0, 16) + b.subrange(16, 32));
}

/// A map from digest to encoded node. Digests are looked up through two
/// hash tables, the first keyed by the upper half of the digest, the second
/// by its lower half.
#[derive(Debug)]
pub struct ProofDb {
    nodes: HashMap<u128, HashMap<u128, Vec<u8>>>,
}

impl View for ProofDb {
    type V = Map<Seq<u8>, Seq<u8>>;

    closed spec fn view(&self) -> Map<Seq<u8>, Seq<u8>> {
        Map::new(
            |hash: Seq<u8>|
                hash.len() == 32 && self.nodes@.contains_key(upper_key(hash))
                    && self.nodes@[upper_key(hash)]@.contains_key(lower_key(hash)),
            |hash: Seq<u8>| self.nodes@[upper_key(hash)]@[lower_key(hash)]@,
        )
    }
}

impl ProofDb {
    /// The map that holds nothing.
    pub fn new() -> (db: ProofDb)
        ensures
            db@ == Map::<Seq<u8>, Seq<u8>>::empty(),
    {
        let db = ProofDb { nodes: HashMap::new() };
        assert(db@ =~= Map::<Seq<u8>, Seq<u8>>::empty());
        db
    }

    /// Binds `node` to `hash`, in place of what was bound to it before.
    pub fn insert(&mut self, hash: &H256, node: Vec<u8>)
        ensures
            final(self)@ == old(self)@.insert(hash@, node@),
    {
        let bytes = hash.as_bytes();
        let upper: u128 = u128_from_le_bytes(slice_subrange(bytes, 0, 16));
        let lower: u128 = u128_from_le_bytes(slice_subrange(bytes, 16, 32));
        let mut inner: HashMap<u128, Vec<u8>> = match self.nodes.remove(&upper) {
            Some(inner) => inner,
            None => HashMap::new(),
        };
        inner.insert(lower, node);
        self.nodes.insert(upper, inner);
        proof {
            let before = old(self)@;
            let after = self@;
            assert forall|other: Seq<u8>| other.len() == 32 && other != hash@ implies (
            upper_key(other) != upper || lower_key(other) != lower) by {
                if upper_key(other) == upper && lower_key(other) == lower {
                    lemma_keys_tell_digests_apart(other, hash@);
                }
            }
            assert(after =~= before.insert(hash@, node@));
        }
    }

    /// The node bound to `hash`, if one is.
    pub fn get(&self, hash: &H256) -> (found: Option<&Vec<u8>>)
        ensures
            match found {
                Some(node) => self@.contains_key(hash@) && self@[hash@] == node@,
                None => !self@.contains_key(hash@),
            },
    {
        let bytes = hash.as_bytes();
        let upper: u128 = u128_from_le_bytes(slice_subrange(bytes, 0, 16));
        let lower: u128 = u128_from_le_bytes(slice_subrange(bytes, 16, 32));
        match self.nodes.get(&upper) {
            Some(inner) => inner.get(&lower),
            None => None,
        }
    }
}

} // verus!
