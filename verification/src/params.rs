//! A proof as it is handed over in text: root, key and nodes in base 16.

use vstd::prelude::*;
use crate::encoding::{hex_number_bytes, parse_hex};

verus! {

/// The parameters of one verification, each in base 16.
#[derive(Debug)]
pub struct MptParams {
    pub root: String,
    pub key: String,
    pub proof: Vec<String>,
}

/// Whether each text of `texts` spells a number in base 16.
pub open spec fn all_hex(texts: Seq<String>) -> bool {
    forall|i: int| 0 <= i < texts.len() ==> hex_number_bytes((#[trigger] texts[i])@) is Some
}

/// Whether `bytes` holds, place for place, the bytes that the texts spell.
pub open spec fn spelled_by(bytes: Seq<Vec<u8>>, texts: Seq<String>) -> bool {
    &&& bytes.len() == texts.len()
    &&& forall|i: int|
        0 <= i < texts.len() ==> hex_number_bytes(texts[i]@) == Some((#[trigger] bytes[i])@)
}

impl MptParams {
    /// The key's bytes.
    pub fn key(&self) -> (bytes: Vec<u8>)
        requires
            hex_number_bytes(self.key@) is Some,
        ensures
            hex_number_bytes(self.key@) == Some(bytes@),
    {
        match parse_hex(self.key.as_str()) {
            Some(bytes) => bytes,
            None => {
                assert(false);
                Vec::new()
            },
        }
    }

    /// The key's bytes, or `None` where the key is no number in base 16.
    pub fn checked_key(&self) -> (bytes: Option<Vec<u8>>)
        ensures
            match bytes {
                Some(b) => hex_number_bytes(self.key@) == Some(b@),
                None => hex_number_bytes(self.key@) is None,
            },
    {
        match parse_hex(self.key.as_str()) {
            Some(_) => Some(self.key()),
            None => None,
        }
    }

    /// The root digest, in base 16 as it was given.
    pub fn root(&self) -> (text: String)
        ensures
            text@ == self.root@,
    {
        self.root.clone()
    }

    /// The bytes of each node of the proof, in order.
    pub fn proof_nodes(&self) -> (nodes: Vec<Vec<u8>>)
        requires
            all_hex(self.proof@),
        ensures
            spelled_by(nodes@, self.proof@),
    {
        let mut proofs: Vec<Vec<u8>> = Vec::new();
        let mut i: usize = 0;
        while i < self.proof.len()
            invariant
                i <= self.proof@.len(),
                all_hex(self.proof@),
                spelled_by(proofs@, self.proof@.take(i as int)),
            decreases self.proof@.len() - i,
        {
            let value: Vec<u8> = match parse_hex(self.proof[i].as_str()) {
                Some(bytes) => bytes,
                None => {
                    assert(false);
                    Vec::new()
                },
            };
            proofs.push(value);
            i += 1;
        }
        assert(self.proof@.take(i as int) == self.proof@);
        proofs
    }

    /// The bytes of each node of the proof, or `None` where one of them is
    /// no number in base 16.
    pub fn checked_proof_nodes(&self) -> (nodes: Option<Vec<Vec<u8>>>)
        ensures
            match nodes {
                Some(n) => spelled_by(n@, self.proof@),
                None => !all_hex(self.proof@),
            },
    {
        let mut i: usize = 0;
        while i < self.proof.len()
            invariant
                i <= self.proof@.len(),
                all_hex(self.proof@.take(i as int)),
            decreases self.proof@.len() - i,
        {
            if parse_hex(self.proof[i].as_str()).is_none() {
                return None;
            }
            assert forall|j: int| 0 <= j < i + 1 implies hex_number_bytes(
                (#[trigger] self.proof@.take(i + 1)[j])@,
            ) is Some by {
                if j < i {
                    assert(self.proof@.take(i + 1)[j] == self.proof@.take(i as int)[j]);
                }
            }
            i += 1;
        }
        assert(self.proof@.take(i as int) == self.proof@);
        Some(self.proof_nodes())
    }
}

} // verus!
