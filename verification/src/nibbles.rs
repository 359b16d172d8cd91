//! Paths through the trie: sequences of nibbles, closed by a marker where
//! the path ends in a value.

use vstd::prelude::*;
use vstd::slice::slice_to_vec;
use crate::errors::TrieError;

verus! {

/// The element that closes a path which ends in a value.
pub const TERMINATOR: u8 = 16;

/// The nibbles of `bytes`: of each byte the high one, then the low one.
pub open spec fn expand(bytes: Seq<u8>) -> Seq<u8> {
    Seq::new(
        2 * bytes.len(),
        |i: int|
            if i % 2 == 0 {
                (bytes[i / 2] / 16) as u8
            } else {
                (bytes[i / 2] % 16) as u8
            },
    )
}

/// The path of a raw key: its nibbles, and the marker if the path ends in a
/// value.
pub open spec fn raw_path(raw: Seq<u8>, is_leaf: bool) -> Seq<u8> {
    if is_leaf {
        expand(raw).push(TERMINATOR)
    } else {
        expand(raw)
    }
}

/// The path that a compact encoding stands for, if it is one.
///
/// The high nibble of the first byte is a flag: bit 0 says that the low
/// nibble of that byte is the path's first nibble, bit 1 that the path ends
/// in a value. Flags above 3 encode nothing, and neither does the empty
/// string.
pub open spec fn compact_path(compact: Seq<u8>) -> Option<Seq<u8>> {
    if compact.len() == 0 || compact[0] / 16 > 3 {
        None
    } else {
        let flag = compact[0] / 16;
        let head: Seq<u8> = if flag % 2 == 1 {
            seq![(compact[0] % 16) as u8]
        } else {
            Seq::empty()
        };
        Some(raw_path_after(head, compact.skip(1), flag >= 2))
    }
}

/// `head`, followed by the path of the raw bytes `rest`.
pub open spec fn raw_path_after(head: Seq<u8>, rest: Seq<u8>, is_leaf: bool) -> Seq<u8> {
    head + raw_path(rest, is_leaf)
}

/// Whether `path` keeps to the alphabet: nibbles below 16, and the marker
/// nowhere but at the end.
pub open spec fn well_formed(path: Seq<u8>) -> bool {
    forall|i: int|
        0 <= i < path.len() ==> (#[trigger] path[i] < 16 || (path[i] == 16 && i == path.len() - 1))
}

/// The length of the longest prefix that `a` and `b` share.
pub open spec fn shared_prefix_len(a: Seq<u8>, b: Seq<u8>) -> nat
    decreases a.len(),
{
    if a.len() == 0 || b.len() == 0 || a[0] != b[0] {
        0
    } else {
        1 + shared_prefix_len(a.skip(1), b.skip(1))
    }
}

/// A path of nibbles.
#[derive(Debug, Clone, PartialEq, Eq)]
pub struct Nibbles {
    hex_data: Vec<u8>,
}

impl View for Nibbles {
    type V = Seq<u8>;

    closed spec fn view(&self) -> Seq<u8> {
        self.hex_data@
    }
}

impl Nibbles {
    /// The path whose elements are `hex`, as they stand.
    pub fn from_hex(hex: &[u8]) -> (path: Nibbles)
        ensures
            path@ == hex@,
    {
        Nibbles { hex_data: slice_to_vec(hex) }
    }

    /// The path of the raw key `raw`.
    pub fn from_raw(raw: &[u8], is_leaf: bool) -> (path: Nibbles)
        ensures
            path@ == raw_path(raw@, is_leaf),
            well_formed(path@),
    {
        let mut hex_data: Vec<u8> = Vec::new();
        push_expanded(&mut hex_data, raw, 0);
        if is_leaf {
            hex_data.push(TERMINATOR);
        }
        assert(raw@.skip(0) == raw@);
        assert(hex_data@ == raw_path(raw@, is_leaf));
        Nibbles { hex_data }
    }

    /// The path that `compact` encodes; `InvalidData` if it encodes none.
    pub fn from_compact(compact: &[u8]) -> (decoded: Result<Nibbles, TrieError>)
        ensures
            match decoded {
                Ok(path) => compact_path(compact@) == Some(path@) && well_formed(path@),
                Err(e) => compact_path(compact@) is None && e == TrieError::InvalidData,
            },
    {
        if compact.len() == 0 {
            return Err(TrieError::InvalidData);
        }
        let flag: u8 = compact[0] / 16;
        if flag > 3 {
            return Err(TrieError::InvalidData);
        }
        let mut hex: Vec<u8> = Vec::new();
        if flag % 2 == 1 {
            hex.push(compact[0] % 16);
        }
        let ghost head = hex@;
        push_expanded(&mut hex, compact, 1);
        if flag >= 2 {
            hex.push(TERMINATOR);
        }
        assert(hex@ == raw_path_after(head, compact@.skip(1), flag >= 2));
        Ok(Nibbles { hex_data: hex })
    }

    /// Whether the path ends in the marker.
    pub fn is_leaf(&self) -> (leaf: bool)
        ensures
            leaf == (self@.len() > 0 && self@.last() == TERMINATOR),
    {
        let n: usize = self.hex_data.len();
        n > 0 && self.hex_data[n - 1] == TERMINATOR
    }

    /// The number of elements, the marker included.
    pub fn len(&self) -> (n: usize)
        ensures
            n == self@.len(),
    {
        self.hex_data.len()
    }

    /// Whether the path has no element.
    pub fn is_empty(&self) -> (empty: bool)
        ensures
            empty == (self@.len() == 0),
    {
        self.len() == 0
    }

    /// The element at position `i`.
    pub fn at(&self, i: usize) -> (nibble: usize)
        requires
            i < self@.len(),
        ensures
            nibble == self@[i as int],
    {
        self.hex_data[i] as usize
    }

    /// The length of the longest prefix shared with `other_partial`; the
    /// marker counts as any other element.
    pub fn common_prefix(&self, other_partial: &Nibbles) -> (n: usize)
        ensures
            n == shared_prefix_len(self@, other_partial@),
            n <= self@.len(),
            n <= other_partial@.len(),
            self@.take(n as int) == other_partial@.take(n as int),
            n < self@.len() && n < other_partial@.len() ==> self@[n as int]
                != other_partial@[n as int],
    {
        let s: usize = if self.len() <= other_partial.len() {
            self.len()
        } else {
            other_partial.len()
        };
        let mut i: usize = 0;
        proof {
            assert(self@.skip(0) == self@);
            assert(other_partial@.skip(0) == other_partial@);
        }
        while i < s && self.hex_data[i] == other_partial.hex_data[i]
            invariant
                i <= s,
                s <= self@.len(),
                s <= other_partial@.len(),
                s == self@.len() || s == other_partial@.len(),
                self@.take(i as int) == other_partial@.take(i as int),
                shared_prefix_len(self@, other_partial@) == i + shared_prefix_len(
                    self@.skip(i as int),
                    other_partial@.skip(i as int),
                ),
            decreases s - i,
        {
            proof {
                let a = self@;
                let b = other_partial@;
                assert(a.take(i + 1) == a.take(i as int).push(a[i as int]));
                assert(b.take(i + 1) == b.take(i as int).push(b[i as int]));
                assert(a.skip(i as int).skip(1) == a.skip(i + 1));
                assert(b.skip(i as int).skip(1) == b.skip(i + 1));
            }
            i += 1;
        }
        i
    }

    /// The path from position `index` on.
    pub fn offset(&self, index: usize) -> (rest: Nibbles)
        requires
            index <= self@.len(),
        ensures
            rest@ == self@.skip(index as int),
            well_formed(self@) ==> well_formed(rest@),
    {
        let rest = self.slice(index, self.hex_data.len());
        assert(self@.subrange(index as int, self@.len() as int) == self@.skip(index as int));
        rest
    }

    /// The elements from position `start` up to, not including, `end`.
    pub fn slice(&self, start: usize, end: usize) -> (part: Nibbles)
        requires
            start <= end <= self@.len(),
        ensures
            part@ == self@.subrange(start as int, end as int),
            well_formed(self@) ==> well_formed(part@),
    {
        let part = Nibbles::from_hex(&self.hex_data[start..end]);
        proof {
            if well_formed(self@) {
                assert forall|i: int| 0 <= i < part@.len() implies (#[trigger] part@[i] < 16 || (
                part@[i] == 16 && i == part@.len() - 1)) by {
                    assert(part@[i] == self@[start + i]);
                }
            }
        }
        part
    }

    /// A path's length fits in a `usize`.
    pub proof fn lemma_len_fits(&self)
        ensures
            self@.len() <= usize::MAX,
    {
        assert(self.hex_data@.len() == self.hex_data.len());
    }

    /// Whether both paths hold the same elements.
    pub fn same_as(&self, other: &Nibbles) -> (same: bool)
        ensures
            same == (self@ == other@),
    {
        crate::digest::bytes_eq(self.hex_data.as_slice(), other.hex_data.as_slice())
    }
}

/// Appends to `hex` the nibbles of `bytes` from position `from` on.
fn push_expanded(hex: &mut Vec<u8>, bytes: &[u8], from: usize)
    requires
        from <= bytes@.len(),
    ensures
        final(hex)@ == old(hex)@ + expand(bytes@.skip(from as int)),
{
    let mut i: usize = from;
    while i < bytes.len()
        invariant
            from <= i <= bytes@.len(),
            hex@ == old(hex)@ + expand(bytes@.subrange(from as int, i as int)),
        decreases bytes@.len() - i,
    {
        let item: u8 = bytes[i];
        hex.push(item / 16);
        hex.push(item % 16);
        proof {
            let before = bytes@.subrange(from as int, i as int);
            let after = bytes@.subrange(from as int, i + 1);
            assert(after == before.push(item));
            assert(expand(after) =~= expand(before).push((item / 16) as u8).push(
                (item % 16) as u8,
            ));
        }
        i += 1;
    }
    assert(bytes@.subrange(from as int, i as int) == bytes@.skip(from as int));
}

} // verus!
