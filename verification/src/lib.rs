//! A verifiable state-transition engine for authenticated name registries.
//!
//! A *space* is a sparse-Merkle registry of names; a batch of transactions
//! (registrations of absent names and signature-authorized transfers of
//! existing ones) is serialized to a compact wire format, paired with a
//! Merkle subtree proof, and replayed by a guest verifier that emits a
//! commitment `(space, initial_root, final_root)`.
//!
//! This crate holds the trust-critical core: the wire format and its
//! zero-copy reader, the deterministic batch builder, and the guest
//! transition rules.
use vstd::prelude::*;

pub mod builder;
pub mod crypto;
pub mod guest;
pub mod laws;
pub mod names;
pub mod subtree;

verus! {

use vstd::bytes::spec_u16_from_le_bytes;
use vstd::bytes::u16_from_le_bytes;
use vstd::slice::slice_subrange;

/// Number of bytes in a wire batch header: a version byte followed by the
/// 32-byte space hash.
pub const HEADER_SIZE: usize = 33;

/// Mathematical view of one wire entry: a 32-byte subspace key, a 32-byte
/// owner, and the remaining witness bytes of its frame.
pub ghost struct EntryView {
    pub subspace_hash: Seq<u8>,
    pub owner: Seq<u8>,
    pub witness: Seq<u8>,
}

/// The entries encoded in a batch body, by the framing discipline: each
/// frame is a little-endian `u16` length `L >= 64` followed by `L` bytes.
/// Parsing ends (without error) at the first truncated or undersized frame.
pub open spec fn parse_entries(body: Seq<u8>) -> Seq<EntryView>
    decreases body.len(),
{
    if body.len() < 2 {
        Seq::empty()
    } else {
        let len = spec_u16_from_le_bytes(body.subrange(0, 2)) as int;
        let rest = body.skip(2);
        if len < 64 || len > rest.len() {
            Seq::empty()
        } else {
            seq![
                EntryView {
                    subspace_hash: rest.subrange(0, 32),
                    owner: rest.subrange(32, 64),
                    witness: rest.subrange(64, len),
                },
            ] + parse_entries(rest.skip(len))
        }
    }
}

/// A non-owning view of one batch entry.
pub struct Entry<'a> {
    pub subspace_hash: &'a [u8],
    pub owner: &'a [u8],
    pub witness: &'a [u8],
}

impl<'a> View for Entry<'a> {
    type V = EntryView;

    open spec fn view(&self) -> EntryView {
        EntryView {
            subspace_hash: self.subspace_hash@,
            owner: self.owner@,
            witness: self.witness@,
        }
    }
}

/// Zero-copy reader over a serialized wire batch.
pub struct TransactionReader<'a>(pub &'a [u8]);

impl<'a> TransactionReader<'a> {
    pub fn new(data: &'a [u8]) -> (r: Self)
        ensures
            r.0@ == data@,
    {
        TransactionReader(data)
    }

    /// The first `HEADER_SIZE` bytes: version followed by the space hash.
    pub fn header(&self) -> (r: &'a [u8])
        requires
            self.0@.len() >= HEADER_SIZE,
        ensures
            r@ == self.0@.subrange(0, HEADER_SIZE as int),
    {
        slice_subrange(self.0, 0, HEADER_SIZE)
    }

    /// The version byte.
    pub fn version(&self) -> (r: u8)
        requires
            self.0@.len() >= 1,
        ensures
            r == self.0@[0],
    {
        *vstd::slice::slice_index_get(self.0, 0)
    }

    /// The 32-byte space hash of the header.
    pub fn space_hash(&self) -> (r: &'a [u8])
        requires
            self.0@.len() >= HEADER_SIZE,
        ensures
            r@ == self.0@.subrange(1, HEADER_SIZE as int),
    {
        slice_subrange(self.0, 1, HEADER_SIZE)
    }

    /// An iterator over the body entries that follow the header.
    pub fn iter(&self) -> (r: BodyIterator<'a>)
        requires
            self.0@.len() >= HEADER_SIZE,
        ensures
            r@ == self.0@.skip(HEADER_SIZE as int),
    {
        BodyIterator { data: slice_subrange(self.0, HEADER_SIZE, self.0.len()) }
    }
}

/// Streaming cursor over a batch body. `next` yields the entries of
/// `parse_entries` in order and is terminal: once it answers `None`, every
/// later call answers `None`.
pub struct BodyIterator<'a> {
    data: &'a [u8],
}

impl<'a> View for BodyIterator<'a> {
    type V = Seq<u8>;

    closed spec fn view(&self) -> Seq<u8> {
        self.data@
    }
}

impl<'a> BodyIterator<'a> {
    /// Yields the next wire entry, or `None` at the end of the body or at
    /// the first malformed frame (fewer than 2 bytes left, a length under
    /// 64, or a length past the end of the input).
    pub fn next(&mut self) -> (r: Option<Entry<'a>>)
        ensures
            match r {
                Option::None => {
                    &&& parse_entries(old(self)@).len() == 0
                    &&& parse_entries(final(self)@).len() == 0
                },
                Option::Some(e) => {
                    &&& parse_entries(old(self)@) == seq![e@] + parse_entries(final(self)@)
                    &&& final(self)@.len() < old(self)@.len()
                    &&& e@.subspace_hash.len() == 32
                    &&& e@.owner.len() == 32
                },
            },
    {
        let n = self.data.len();
        if n < 2 {
            return None;
        }
        let len = u16_from_le_bytes(slice_subrange(self.data, 0, 2)) as usize;
        let rest = slice_subrange(self.data, 2, n);
        proof {
            assert(rest@ == self.data@.skip(2));
        }
        if len < 64 || len > rest.len() {
            // A malformed frame ends the stream; drop the remainder so that
            // the cursor stays exhausted.
            self.data = slice_subrange(rest, rest.len(), rest.len());
            return None;
        }
        let frame = slice_subrange(rest, 0, len);
        let subspace_hash = slice_subrange(frame, 0, 32);
        let owner = slice_subrange(frame, 32, 64);
        let witness = slice_subrange(frame, 64, len);
        proof {
            assert(subspace_hash@ == rest@.subrange(0, 32));
            assert(owner@ == rest@.subrange(32, 64));
            assert(witness@ == rest@.subrange(64, len as int));
        }
        self.data = slice_subrange(rest, len, rest.len());
        proof {
            assert(self.data@ == rest@.skip(len as int));
        }
        Some(Entry { subspace_hash, owner, witness })
    }
}

} // verus!
