use mpt_proof::db::ProofDb;
use mpt_proof::digest::{bytes_eq, H256};

fn numbered(first: u8) -> H256 {
    let mut bytes = [0u8; 32];
    for (i, b) in bytes.iter_mut().enumerate() {
        *b = first.wrapping_add(i as u8);
    }
    H256(bytes)
}

#[test]
fn digest_from_slice_keeps_the_bytes() {
    let h = numbered(7);
    let copy = H256::from_slice(h.as_bytes());
    assert_eq!(copy, h);
    assert_eq!(copy.as_bytes(), &h.0[..]);
    assert!(copy.same_as(&h));
}

#[test]
fn digests_differ_by_one_byte() {
    let h = numbered(7);
    let mut bytes = h.0;
    bytes[31] ^= 1;
    assert!(!h.same_as(&H256(bytes)));
    let mut bytes = h.0;
    bytes[0] ^= 0x80;
    assert!(!h.same_as(&H256(bytes)));
}

#[test]
fn bytes_eq_on_strings() {
    assert!(bytes_eq(&[], &[]));
    assert!(bytes_eq(&[1, 2, 3], &[1, 2, 3]));
    assert!(!bytes_eq(&[1, 2, 3], &[1, 2]));
    assert!(!bytes_eq(&[1, 2, 3], &[1, 2, 4]));
}

#[test]
fn db_finds_what_was_inserted() {
    let mut db = ProofDb::new();
    assert!(db.get(&numbered(1)).is_none());
    db.insert(&numbered(1), vec![1, 2, 3]);
    db.insert(&numbered(2), vec![4]);
    assert_eq!(db.get(&numbered(1)), Some(&vec![1, 2, 3]));
    assert_eq!(db.get(&numbered(2)), Some(&vec![4]));
    assert!(db.get(&numbered(3)).is_none());
}

#[test]
fn db_tells_apart_digests_with_one_half_in_common() {
    let a = numbered(1);
    let mut upper_same = a.0;
    upper_same[31] ^= 0xff;
    let mut lower_same = a.0;
    lower_same[0] ^= 0xff;
    let mut db = ProofDb::new();
    db.insert(&a, vec![1]);
    db.insert(&H256(upper_same), vec![2]);
    db.insert(&H256(lower_same), vec![3]);
    assert_eq!(db.get(&a), Some(&vec![1]));
    assert_eq!(db.get(&H256(upper_same)), Some(&vec![2]));
    assert_eq!(db.get(&H256(lower_same)), Some(&vec![3]));
}

#[test]
fn db_keeps_the_later_of_two_nodes_under_one_digest() {
    let mut db = ProofDb::new();
    db.insert(&numbered(1), vec![1]);
    db.insert(&numbered(1), vec![2]);
    assert_eq!(db.get(&numbered(1)), Some(&vec![2]));
}
