//! What the library asks of the `rlp` crate, of Keccak-256 and of
//! `num_bigint`.
//!
//! Nothing in this file is proved: each function hands its argument to
//! outside code, and its contract records what that code is trusted to do.
//! Where the answer is a long computation on the bytes alone, the contract
//! only gives it a name, so that callers can say which answer they mean.

use vstd::prelude::*;
use num_bigint::BigUint;
use rlp::{DecoderError, Prototype, Rlp};

verus! {

/// The error type of the `rlp` crate. Nothing of its content is used.
#[verifier::external_type_specification]
#[verifier::external_body]
pub struct ExDecoderError(DecoderError);

/// The outline of an encoded item, as `rlp` reports it.
#[derive(Debug, Clone, Copy, PartialEq, Eq, Structural)]
pub enum Shape {
    /// No bytes at all.
    Null,
    /// A byte string, with the length of its payload.
    Data(usize),
    /// A list, with the number of its items.
    List(usize),
}

/// The outline that `rlp` finds in `data`.
pub uninterp spec fn rlp_prototype(data: Seq<u8>) -> Option<Shape>;

/// The encoding of the item at `index` of the list that `data` encodes,
/// header included.
pub uninterp spec fn rlp_item(data: Seq<u8>, index: int) -> Option<Seq<u8>>;

/// The payload of the item that `data` encodes, header stripped.
pub uninterp spec fn rlp_payload(data: Seq<u8>) -> Option<Seq<u8>>;

/// The Keccak-256 digest of `data`.
pub uninterp spec fn keccak256(data: Seq<u8>) -> Seq<u8>;

/// The bytes, most significant first, of the number that `text` spells in
/// base 16, as `num_bigint` reads and writes numbers.
pub uninterp spec fn hex_number_bytes(text: Seq<char>) -> Option<Seq<u8>>;

/// Whether `data` encodes the empty string or the empty list: its first
/// byte is `0x80` or `0xc0`.
pub open spec fn rlp_is_empty(data: Seq<u8>) -> bool {
    data.len() > 0 && (data[0] == 0xc0 || data[0] == 0x80)
}

/// Calls `rlp::Rlp::prototype` on `data`.
///
/// Trusted: the answer depends on the bytes alone, and is given the name
/// [`rlp_prototype`].
#[verifier::external_body]
pub(crate) fn prototype(data: &[u8]) -> (found: Result<Shape, DecoderError>)
    ensures
        match found {
            Ok(shape) => rlp_prototype(data@) == Some(shape),
            Err(_) => rlp_prototype(data@) is None,
        },
{
    match Rlp::new(data).prototype() {
        Ok(Prototype::Null) => Ok(Shape::Null),
        Ok(Prototype::Data(len)) => Ok(Shape::Data(len)),
        Ok(Prototype::List(count)) => Ok(Shape::List(count)),
        Err(e) => Err(e),
    }
}

/// Calls `rlp::Rlp::at` on `data`, and hands back the bytes of the item it
/// found.
///
/// Trusted: the answer depends on the bytes and the index alone, and is
/// given the name [`rlp_item`]; and an item is cut out of its list's
/// payload, which follows a header of at least one byte, so it is shorter
/// than `data`.
#[verifier::external_body]
pub(crate) fn item(data: &[u8], index: usize) -> (found: Result<&[u8], DecoderError>)
    ensures
        match found {
            Ok(bytes) => rlp_item(data@, index as int) == Some(bytes@) && bytes@.len()
                < data@.len(),
            Err(_) => rlp_item(data@, index as int) is None,
        },
{
    match Rlp::new(data).at(index) {
        Ok(found) => Ok(found.as_raw()),
        Err(e) => Err(e),
    }
}

/// Calls `rlp::Rlp::data` on `data`.
///
/// Trusted: the answer depends on the bytes alone, and is given the name
/// [`rlp_payload`].
#[verifier::external_body]
pub(crate) fn payload(data: &[u8]) -> (found: Result<&[u8], DecoderError>)
    ensures
        match found {
            Ok(bytes) => rlp_payload(data@) == Some(bytes@),
            Err(_) => rlp_payload(data@) is None,
        },
{
    Rlp::new(data).data()
}

/// Calls `rlp::Rlp::is_empty` on `data`.
///
/// Trusted: the answer is [`rlp_is_empty`], which is the whole of what the
/// crate's function looks at.
#[verifier::external_body]
pub(crate) fn is_empty(data: &[u8]) -> (empty: bool)
    ensures
        empty == rlp_is_empty(data@),
{
    Rlp::new(data).is_empty()
}

/// Calls `keccak::hash` of `solana_program`, as `anchor_lang` offers it.
///
/// Trusted: the digest depends on the bytes alone, and is given the name
/// [`keccak256`]. That it is 32 bytes long follows from the type.
#[verifier::external_body]
pub(crate) fn keccak(data: &[u8]) -> (digest: [u8; 32])
    ensures
        digest@ == keccak256(data@),
{
    anchor_lang::solana_program::keccak::hash(data).0
}

/// Calls `BigUint::parse_bytes` of `num_bigint` on the text, with radix 16,
/// and `BigUint::to_bytes_be` on the number it read.
///
/// Trusted: the answer depends on the text alone, and is given the name
/// [`hex_number_bytes`].
#[verifier::external_body]
pub(crate) fn parse_hex(text: &str) -> (found: Option<Vec<u8>>)
    ensures
        match found {
            Some(bytes) => hex_number_bytes(text@) == Some(bytes@),
            None => hex_number_bytes(text@) is None,
        },
{
    match BigUint::parse_bytes(text.as_bytes(), 16) {
        Some(number) => Some(number.to_bytes_be()),
        None => None,
    }
}

} // verus!
