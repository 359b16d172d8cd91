use mpt_proof::errors::TrieError;
use mpt_proof::nibbles::Nibbles;

#[test]
fn raw_key_expands_to_two_nibbles_per_byte() {
    let path = Nibbles::from_raw(&[0x12, 0xab], false);
    assert_eq!(path, Nibbles::from_hex(&[1, 2, 10, 11]));
    assert_eq!(path.len(), 4);
    assert!(!path.is_leaf());
}

#[test]
fn raw_leaf_key_ends_in_the_marker() {
    let path = Nibbles::from_raw(&[0x01], true);
    assert_eq!(path, Nibbles::from_hex(&[0, 1, 16]));
    assert!(path.is_leaf());
    assert_eq!(path.at(2), 16);
}

#[test]
fn raw_empty_key() {
    assert!(Nibbles::from_raw(&[], false).is_empty());
    assert_eq!(Nibbles::from_raw(&[], true), Nibbles::from_hex(&[16]));
}

#[test]
fn compact_extension_of_even_length() {
    let path = Nibbles::from_compact(&[0x00, 0x12, 0x34]).unwrap();
    assert_eq!(path, Nibbles::from_hex(&[1, 2, 3, 4]));
    assert!(!path.is_leaf());
}

#[test]
fn compact_extension_of_odd_length() {
    let path = Nibbles::from_compact(&[0x1a, 0xbc]).unwrap();
    assert_eq!(path, Nibbles::from_hex(&[10, 11, 12]));
}

#[test]
fn compact_leaf_of_even_length() {
    let path = Nibbles::from_compact(&[0x20, 0x01]).unwrap();
    assert_eq!(path, Nibbles::from_hex(&[0, 1, 16]));
    assert!(path.is_leaf());
}

#[test]
fn compact_leaf_of_odd_length() {
    let path = Nibbles::from_compact(&[0x3f, 0x1c]).unwrap();
    assert_eq!(path, Nibbles::from_hex(&[15, 1, 12, 16]));
    assert!(path.is_leaf());
}

#[test]
fn compact_flag_alone() {
    let path = Nibbles::from_compact(&[0x00]).unwrap();
    assert!(path.is_empty());
    assert!(!path.is_leaf());
    assert_eq!(Nibbles::from_compact(&[0x20]).unwrap(), Nibbles::from_hex(&[16]));
}

#[test]
fn compact_with_unknown_flag_is_invalid() {
    assert_eq!(Nibbles::from_compact(&[0x40, 0x12]), Err(TrieError::InvalidData));
    assert_eq!(Nibbles::from_compact(&[0xff]), Err(TrieError::InvalidData));
}

#[test]
fn compact_of_no_bytes_is_invalid() {
    assert_eq!(Nibbles::from_compact(&[]), Err(TrieError::InvalidData));
}

#[test]
fn compact_and_raw_agree() {
    let raw = Nibbles::from_raw(&[0xab, 0xcd], true);
    let compact = Nibbles::from_compact(&[0x20, 0xab, 0xcd]).unwrap();
    assert_eq!(raw, compact);
}

#[test]
fn common_prefix_stops_at_the_first_difference() {
    let a = Nibbles::from_hex(&[1, 2, 3, 4]);
    let b = Nibbles::from_hex(&[1, 2, 9, 4]);
    assert_eq!(a.common_prefix(&b), 2);
    assert_eq!(b.common_prefix(&a), 2);
}

#[test]
fn common_prefix_is_bounded_by_the_shorter_path() {
    let a = Nibbles::from_hex(&[1, 2, 3, 4]);
    let b = Nibbles::from_hex(&[1, 2]);
    assert_eq!(a.common_prefix(&b), 2);
    assert_eq!(a.common_prefix(&Nibbles::from_hex(&[])), 0);
    assert_eq!(a.common_prefix(&a), 4);
}

#[test]
fn common_prefix_treats_the_marker_as_an_element() {
    let a = Nibbles::from_hex(&[1, 16]);
    let b = Nibbles::from_hex(&[1, 16]);
    let c = Nibbles::from_hex(&[1, 15]);
    assert_eq!(a.common_prefix(&b), 2);
    assert_eq!(a.common_prefix(&c), 1);
}

#[test]
fn slice_and_offset_cut_sub_paths() {
    let path = Nibbles::from_hex(&[1, 2, 3, 4, 16]);
    assert_eq!(path.slice(1, 3), Nibbles::from_hex(&[2, 3]));
    assert_eq!(path.slice(2, 2), Nibbles::from_hex(&[]));
    assert_eq!(path.offset(3), Nibbles::from_hex(&[4, 16]));
    assert_eq!(path.offset(5), Nibbles::from_hex(&[]));
    assert_eq!(path.offset(0), path);
}

#[test]
fn is_leaf_of_the_empty_path_is_false() {
    assert!(!Nibbles::from_hex(&[]).is_leaf());
}

#[test]
fn same_as_compares_element_for_element() {
    let a = Nibbles::from_hex(&[1, 2, 3]);
    assert!(a.same_as(&Nibbles::from_hex(&[1, 2, 3])));
    assert!(!a.same_as(&Nibbles::from_hex(&[1, 2])));
    assert!(!a.same_as(&Nibbles::from_hex(&[1, 2, 4])));
}
