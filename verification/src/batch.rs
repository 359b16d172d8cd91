//! Cutting a proof into batches that fit one transaction each.
//!
//! The nodes of a proof are sent off in order, in batches of 996 bytes. A
//! node that does not fit into what is left of a batch is cut in two: its
//! head fills the batch, its rest opens the next one, which is marked as
//! going on where the last one stopped.

use vstd::prelude::*;
use vstd::slice::slice_to_vec;
use crate::trie::byte_strings;

verus! {

/// Number of bytes of proof data that one transaction takes.
pub const TX_MAX_SIZE: usize = 996;

/// The number of bytes in all of `parts`.
pub open spec fn total_len(parts: Seq<Seq<u8>>) -> nat
    decreases parts.len(),
{
    if parts.len() == 0 {
        0
    } else {
        total_len(parts.drop_last()) + parts.last().len()
    }
}

/// The size of a list of byte strings once it is framed: four bytes for
/// the list's length, and four more before each string.
pub open spec fn framed_size(parts: Seq<Seq<u8>>) -> nat
    decreases parts.len(),
{
    if parts.len() == 0 {
        4
    } else {
        framed_size(parts.drop_last()) + 4 + parts.last().len()
    }
}

/// One batch of proof data.
#[derive(Debug, Clone, PartialEq, Eq)]
pub struct Batch {
    /// The pieces of the batch, in order.
    pub data: Vec<Vec<u8>>,
    /// Whether the first piece goes on where the last piece of the batch
    /// before stopped.
    pub is_merge: bool,
}

/// The mathematical content of a [`Batch`].
pub struct BatchModel {
    pub data: Seq<Seq<u8>>,
    pub is_merge: bool,
}

impl View for Batch {
    type V = BatchModel;

    open spec fn view(&self) -> BatchModel {
        BatchModel { data: byte_strings(self.data@), is_merge: self.is_merge }
    }
}

/// The content of an optional batch.
pub open spec fn batch_of(batch: Option<Batch>) -> Option<BatchModel> {
    match batch {
        Some(b) => Some(b@),
        None => None,
    }
}

/// The mathematical content of a [`Batcher`]: the batch that is being
/// filled, and the room that is left in it.
pub struct BatcherModel {
    pub data: Seq<Seq<u8>>,
    pub remaining: nat,
    pub is_merge: bool,
}

impl BatcherModel {
    /// The state before anything was fed.
    pub open spec fn start() -> BatcherModel {
        BatcherModel { data: Seq::empty(), remaining: TX_MAX_SIZE as nat, is_merge: false }
    }

    /// Whether the pieces at hand and the room left make up one batch.
    pub open spec fn wf(self) -> bool {
        total_len(self.data) + self.remaining == TX_MAX_SIZE
    }

    /// Whether a node of `len` bytes can be fed: what does not fit into the
    /// batch at hand must fit into the next one.
    pub open spec fn accepts(self, len: nat) -> bool {
        self.remaining == 0 || len <= self.remaining + TX_MAX_SIZE
    }

    /// The state after `entry` was fed, and the batch that this completed,
    /// if it completed one.
    ///
    /// With room for more than the entry, the entry joins the batch. Else
    /// as much of it as fits joins the batch, the batch is complete, and
    /// the rest of the entry, if there is one, opens the next batch. With
    /// no room at all, which is the case after a rest that filled a whole
    /// batch by itself, that batch is complete and the entry is not taken.
    pub open spec fn fed(self, entry: Seq<u8>) -> (BatcherModel, Option<BatchModel>) {
        if self.remaining > entry.len() {
            (
                BatcherModel {
                    data: self.data.push(entry),
                    remaining: (self.remaining - entry.len()) as nat,
                    is_merge: self.is_merge,
                },
                None,
            )
        } else {
            let filled = if self.remaining > 0 {
                self.data.push(entry.take(self.remaining as int))
            } else {
                self.data
            };
            let rest = if self.remaining > 0 {
                entry.skip(self.remaining as int)
            } else {
                Seq::empty()
            };
            let complete = BatchModel { data: filled, is_merge: self.is_merge };
            if rest.len() > 0 {
                (
                    BatcherModel {
                        data: seq![rest],
                        remaining: (TX_MAX_SIZE - rest.len()) as nat,
                        is_merge: true,
                    },
                    Some(complete),
                )
            } else {
                (BatcherModel::start(), Some(complete))
            }
        }
    }

    /// The batch that is left at the end, if any piece is at hand.
    pub open spec fn finished(self) -> Option<BatchModel> {
        if self.data.len() > 0 {
            Some(BatchModel { data: self.data, is_merge: self.is_merge })
        } else {
            None
        }
    }
}

/// [`total_len`] of a list with one more string.
pub proof fn lemma_total_len_push(parts: Seq<Seq<u8>>, last: Seq<u8>)
    ensures
        total_len(parts.push(last)) == total_len(parts) + last.len(),
{
    assert(parts.push(last).drop_last() == parts);
}

/// A batch that feeding completes holds exactly 996 bytes, and the state
/// that feeding leaves is well formed again.
pub proof fn lemma_fed_batch_is_full(state: BatcherModel, entry: Seq<u8>)
    requires
        state.wf(),
        state.accepts(entry.len()),
    ensures
        state.fed(entry).0.wf(),
        state.fed(entry).1 matches Some(batch) ==> total_len(batch.data) == TX_MAX_SIZE,
{
    lemma_total_len_push(state.data, entry);
    assert(total_len(Seq::<Seq<u8>>::empty()) == 0);
    if state.remaining <= entry.len() && state.remaining > 0 {
        let head = entry.take(state.remaining as int);
        let rest = entry.skip(state.remaining as int);
        lemma_total_len_push(state.data, head);
        lemma_total_len_push(Seq::empty(), rest);
        assert(seq![rest] == Seq::<Seq<u8>>::empty().push(rest));
    }
}

/// Fills batches with the nodes of a proof.
#[derive(Debug)]
pub struct Batcher {
    data: Vec<Vec<u8>>,
    remaining_length: usize,
    is_merge: bool,
}

impl View for Batcher {
    type V = BatcherModel;

    closed spec fn view(&self) -> BatcherModel {
        BatcherModel {
            data: byte_strings(self.data@),
            remaining: self.remaining_length as nat,
            is_merge: self.is_merge,
        }
    }
}

impl Batcher {
    #[verifier::type_invariant]
    spec fn balanced(self) -> bool {
        self@.wf()
    }

    /// A batcher with an empty batch at hand.
    pub fn new() -> (batcher: Batcher)
        ensures
            batcher@ == BatcherModel::start(),
    {
        let data: Vec<Vec<u8>> = Vec::new();
        assert(byte_strings(data@) =~= Seq::<Seq<u8>>::empty());
        assert(total_len(byte_strings(data@)) == 0);
        Batcher { data, remaining_length: TX_MAX_SIZE, is_merge: false }
    }

    /// Whether a node of `len` bytes can be fed.
    pub fn accepts(&self, len: usize) -> (ok: bool)
        ensures
            ok == self@.accepts(len as nat),
    {
        proof {
            use_type_invariant(self);
        }
        self.remaining_length == 0 || len <= self.remaining_length || len - self.remaining_length
            <= TX_MAX_SIZE
    }

    /// Feeds one node, and hands out the batch that it completed, if any.
    pub fn feed(self, entry: Vec<u8>) -> (after: (Batcher, Option<Batch>))
        requires
            self@.accepts(entry@.len()),
        ensures
            (after.0@, batch_of(after.1)) == self@.fed(entry@),
            after.1 matches Some(batch) ==> total_len(batch@.data) == TX_MAX_SIZE,
    {
        proof {
            use_type_invariant(&self);
            lemma_fed_batch_is_full(self@, entry@);
        }
        let ghost before = self@;
        let Batcher { data, remaining_length, is_merge } = self;
        let mut data = data;
        let cur_size: usize = entry.len();
        if remaining_length > cur_size {
            proof {
                assert(byte_strings(data@.push(entry)) =~= byte_strings(data@).push(entry@));
            }
            data.push(entry);
            return (
                Batcher { data, remaining_length: remaining_length - cur_size, is_merge },
                None,
            );
        }
        let mut remaining_data: Vec<u8> = Vec::new();
        if remaining_length > 0 {
            let head = slice_to_vec(&entry.as_slice()[0..remaining_length]);
            remaining_data = slice_to_vec(&entry.as_slice()[remaining_length..cur_size]);
            proof {
                assert(head@ == entry@.take(remaining_length as int));
                assert(remaining_data@ == entry@.skip(remaining_length as int));
                assert(byte_strings(data@.push(head)) =~= byte_strings(data@).push(head@));
            }
            data.push(head);
        }
        let complete = Batch { data, is_merge };
        let mut next: Vec<Vec<u8>> = Vec::new();
        if remaining_data.len() > 0 {
            let left: usize = TX_MAX_SIZE - remaining_data.len();
            proof {
                assert(byte_strings(next@.push(remaining_data)) =~= seq![remaining_data@]);
            }
            next.push(remaining_data);
            (Batcher { data: next, remaining_length: left, is_merge: true }, Some(complete))
        } else {
            proof {
                assert(byte_strings(next@) =~= Seq::<Seq<u8>>::empty());
            }
            (
                Batcher { data: next, remaining_length: TX_MAX_SIZE, is_merge: false },
                Some(complete),
            )
        }
    }

    /// Hands out the batch that is left at the end, if any piece is at
    /// hand.
    pub fn finish(self) -> (last: Option<Batch>)
        ensures
            batch_of(last) == self@.finished(),
            last matches Some(batch) ==> total_len(batch@.data) <= TX_MAX_SIZE,
    {
        proof {
            use_type_invariant(&self);
        }
        let Batcher { data, remaining_length, is_merge } = self;
        if data.len() > 0 {
            Some(Batch { data, is_merge })
        } else {
            None
        }
    }
}

/// The framed size of `nodes`, or `None` where it does not fit a `usize`.
pub fn proof_size(nodes: &Vec<Vec<u8>>) -> (size: Option<usize>)
    ensures
        match size {
            Some(n) => n == framed_size(byte_strings(nodes@)),
            None => framed_size(byte_strings(nodes@)) > usize::MAX,
        },
{
    let ghost all = byte_strings(nodes@);
    let mut len: usize = 4;
    let mut i: usize = 0;
    while i < nodes.len()
        invariant
            i <= nodes@.len(),
            all == byte_strings(nodes@),
            len == framed_size(all.take(i as int)),
        decreases nodes@.len() - i,
    {
        let node_len: usize = nodes[i].len();
        proof {
            assert(all.take(i + 1).drop_last() == all.take(i as int));
            lemma_framed_size_grows(all, i + 1);
        }
        if node_len > usize::MAX - 4 || len > usize::MAX - 4 - node_len {
            return None;
        }
        len = len + 4 + node_len;
        i += 1;
    }
    assert(all.take(i as int) == all);
    Some(len)
}

/// The framed size of a list is no smaller than that of its first `count`
/// strings.
pub proof fn lemma_framed_size_grows(parts: Seq<Seq<u8>>, count: int)
    requires
        0 <= count <= parts.len(),
    ensures
        framed_size(parts.take(count)) <= framed_size(parts),
    decreases parts.len() - count,
{
    if count < parts.len() {
        lemma_framed_size_grows(parts, count + 1);
        assert(parts.take(count + 1).drop_last() == parts.take(count));
    } else {
        assert(parts.take(count) == parts);
    }
}

} // verus!
