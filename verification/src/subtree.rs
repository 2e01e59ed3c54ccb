//! Trusted boundary to the sparse-Merkle proof fragment (`spacedb`).
//!
//! The fragment is modelled by names: `subtree_leaves`, the value-carrying
//! leaves its iterator yields; `subtree_keys`, the keys of all leaf nodes it
//! materializes (value- or digest-valued); `subtree_root`, the root hash
//! recomputed from it; `subtree_covers`, whether it holds enough structure
//! to settle a key's absence; and `subtree_wf`, whether every leaf sits on
//! the path its key dictates (with pairwise distinct keys).
//!
//! `subtree_wf` matters because spacedb's decoder checks only lengths: a
//! decodable byte string may place a leaf off its key's path, and on such a
//! fragment spacedb's navigating mutations can *panic* (the leaf's
//! divergence point can precede the navigation depth, which its path
//! arithmetic asserts against). The mutating wrappers therefore require
//! `subtree_wf`, and the requirement surfaces in the contracts of the guest
//! functions above them: spacedb offers no validation call that could
//! establish it after decoding, so it stands as a visible assumption about
//! the proving party's own store. Read-only operations (root recomputation,
//! iteration under a recomputable root) are safe on every decodable
//! fragment.
use vstd::prelude::*;

verus! {

/// The sparse-Merkle proof fragment covering the keys of one batch. Verus
/// cannot declare `spacedb`'s own subtree type (its generic bound is a
/// trait of an outside crate), so the fragment rides in an opaque struct.
#[verifier::external_body]
pub struct SubTree {
    inner: spacedb::subtree::SubTree<spacedb::Sha256Hasher>,
}

/// The value-carrying leaves of the fragment, as `(key, value)` pairs in
/// the order its iterator yields them — ascending key order on a
/// well-formed fragment.
pub uninterp spec fn subtree_leaves(t: SubTree) -> Seq<(Seq<u8>, Seq<u8>)>;

/// The keys of all leaf nodes the fragment materializes, value- or
/// digest-valued.
pub uninterp spec fn subtree_keys(t: SubTree) -> Set<Seq<u8>>;

/// The root hash recomputed from the fragment.
pub uninterp spec fn subtree_root(t: SubTree) -> Seq<u8>;

/// Whether the fragment carries enough node data to recompute its root:
/// no pruned-away (empty) node is reachable.
pub uninterp spec fn subtree_root_ok(t: SubTree) -> bool;

/// Whether the fragment is well formed: every leaf lies on the path its
/// key dictates, so keys are pairwise distinct and navigation by key finds
/// exactly the leaves that carry it.
pub uninterp spec fn subtree_wf(t: SubTree) -> bool;

/// Whether the fragment covers a key: walking the key's path ends at a
/// materialized divergence or leaf, so the key's absence can be proved and
/// a leaf for it added.
pub uninterp spec fn subtree_covers(t: SubTree, key: Seq<u8>) -> bool;

/// Whether a byte sequence decodes as a serialized fragment.
pub uninterp spec fn subtree_decodes(bytes: Seq<u8>) -> bool;

/// The fragment a byte sequence decodes to.
pub uninterp spec fn subtree_of(bytes: Seq<u8>) -> SubTree;

/// The fragment after the leaf carrying `key` is rewritten to `value`: a
/// function of the three, which pins the run's output fragment (and so its
/// root) as a function of the inputs.
pub uninterp spec fn subtree_after_replace(t: SubTree, key: Seq<u8>, value: Seq<u8>) -> SubTree;

/// The fragment after a digest-valued leaf for `key` is added: a function
/// of the three.
pub uninterp spec fn subtree_after_insert(t: SubTree, key: Seq<u8>, digest: Seq<u8>) -> SubTree;

/// A sequence of leaves with the value of every leaf keyed `key` replaced
/// by `value`.
pub open spec fn replace_leaf_value(
    leaves: Seq<(Seq<u8>, Seq<u8>)>,
    key: Seq<u8>,
    value: Seq<u8>,
) -> Seq<(Seq<u8>, Seq<u8>)> {
    leaves.map_values(
        |p: (Seq<u8>, Seq<u8>)|
            if p.0 == key {
                (p.0, value)
            } else {
                p
            },
    )
}

/// Whether some value leaf carries the key.
pub open spec fn value_leaf_keyed(leaves: Seq<(Seq<u8>, Seq<u8>)>, key: Seq<u8>) -> bool {
    exists|i: int| 0 <= i < leaves.len() && (#[trigger] leaves[i]).0 == key
}

/// Outcome of writing a value into the fragment.
#[derive(Debug, Clone, Copy, PartialEq, Eq, Structural)]
pub enum LeafWrite {
    /// Navigation reached a leaf with this key: it now carries the value.
    Replaced,
    /// The key was absent along its path: a new leaf was added.
    Added,
    /// The fragment does not cover the key.
    Incomplete,
}

/// Outcome of registering a digest-valued leaf.
#[derive(Debug, Clone, Copy, PartialEq, Eq, Structural)]
pub enum DigestInsert {
    /// The key was absent along its path: a digest leaf was added.
    Added,
    /// Navigation reached a leaf that already carries this key.
    KeyExists,
    /// The fragment does not cover the key.
    Incomplete,
}

impl SubTree {
    /// Relies on spacedb's `SubTree::from_slice`: borsh decoding of a
    /// fragment, a function of the bytes alone, with recursion depth capped
    /// by the decoder. Decoding validates lengths only; it does not
    /// establish `subtree_wf`.
    #[verifier::external_body]
    pub fn decode(bytes: &[u8]) -> (r: Option<SubTree>)
        ensures
            (r is Some) == subtree_decodes(bytes@),
            r matches Some(t) ==> t == subtree_of(bytes@),
    {
        match spacedb::subtree::SubTree::from_slice(bytes) {
            Ok(inner) => Some(SubTree { inner }),
            Err(_) => None,
        }
    }

    /// Relies on spacedb's `SubTree::compute_root`: the root hash
    /// recomputed from the fragment, a function of the fragment alone; it
    /// fails exactly when a pruned-away node is reachable, and panics on no
    /// input.
    #[verifier::external_body]
    pub(crate) fn compute_root(&self) -> (r: Option<[u8; 32]>)
        ensures
            (r is Some) == subtree_root_ok(*self),
            r matches Some(h) ==> h@ == subtree_root(*self),
    {
        self.inner.compute_root().ok()
    }

    /// Relies on spacedb's subtree iterator: it yields exactly the
    /// value-carrying leaves, each a leaf node of the fragment; on a
    /// well-formed fragment their keys are pairwise distinct. The iterator
    /// panics only on a reachable pruned-away node, which a recomputable
    /// root rules out.
    #[verifier::external_body]
    pub(crate) fn entries(&self) -> (r: Vec<([u8; 32], Vec<u8>)>)
        requires
            subtree_root_ok(*self),
        ensures
            r@.map_values(|p: ([u8; 32], Vec<u8>)| (p.0@, p.1@)) == subtree_leaves(*self),
            forall|i: int|
                0 <= i < r@.len() ==> subtree_keys(*self).contains(#[trigger] r@[i].0@),
            subtree_wf(*self) ==> forall|i: int, j: int|
                0 <= i < r@.len() && 0 <= j < r@.len() && i != j ==> #[trigger] r@[i].0@
                    != #[trigger] r@[j].0@,
    {
        self.inner.iter().map(|(key, value)| (*key, value.clone())).collect()
    }

    /// Relies on spacedb's `SubTree::update` with the value variant, on a
    /// well-formed fragment (on an ill-formed one the call can panic, so
    /// well-formedness is required): the key is replaced exactly when
    /// present; a replacement rewrites the one leaf in place, touching
    /// neither structure, keys nor coverage, and yields a fragment that is
    /// a function of the inputs; an addition or a coverage failure behaves
    /// as for a digest insert; no outcome prunes a node.
    #[verifier::external_body]
    pub(crate) fn set_value(&mut self, key: &[u8; 32], value: &[u8]) -> (r: LeafWrite)
        requires
            subtree_wf(*old(self)),
        ensures
            (r == LeafWrite::Replaced) == subtree_keys(*old(self)).contains(key@),
            !subtree_keys(*old(self)).contains(key@) ==> ((r == LeafWrite::Added)
                == subtree_covers(*old(self), key@)),
            r == LeafWrite::Replaced ==> {
                &&& *final(self) == subtree_after_replace(*old(self), key@, value@)
                &&& subtree_keys(*final(self)) == subtree_keys(*old(self))
                &&& subtree_wf(*final(self))
                &&& (forall|k: Seq<u8>|
                    subtree_covers(*final(self), k) == subtree_covers(*old(self), k))
                &&& (value_leaf_keyed(subtree_leaves(*old(self)), key@)
                    ==> subtree_leaves(*final(self)) == replace_leaf_value(
                    subtree_leaves(*old(self)),
                    key@,
                    value@,
                ))
            },
            r == LeafWrite::Added ==> subtree_keys(*final(self)) == subtree_keys(
                *old(self),
            ).insert(key@) && subtree_wf(*final(self)),
            r == LeafWrite::Incomplete ==> *final(self) == *old(self),
            r != LeafWrite::Incomplete ==> subtree_root_ok(*final(self)) == subtree_root_ok(
                *old(self),
            ),
    {
        match self.inner.update(*key, spacedb::subtree::ValueOrHash::Value(value.to_vec())) {
            Ok(Some(_)) => LeafWrite::Replaced,
            Ok(None) => LeafWrite::Added,
            Err(_) => LeafWrite::Incomplete,
        }
    }

    /// Relies on spacedb's `SubTree::insert` with the hash variant, on a
    /// well-formed fragment (on an ill-formed one the call can panic, so
    /// well-formedness is required): key present ⇒ the key-exists error
    /// (navigation rewrites the found leaf's value first, so only the key
    /// set is claimed unchanged); absent and covered ⇒ a digest leaf —
    /// which the iterator does not yield — is added at the key, leaving the
    /// value leaves as they were, keeping well-formedness and every covered
    /// key covered, and yielding a fragment that is a function of the
    /// inputs; absent and uncovered ⇒ failure without change; no outcome
    /// prunes a node.
    #[verifier::external_body]
    pub(crate) fn insert_digest(&mut self, key: &[u8; 32], digest: &[u8; 32]) -> (r: DigestInsert)
        requires
            subtree_wf(*old(self)),
        ensures
            (r == DigestInsert::KeyExists) == subtree_keys(*old(self)).contains(key@),
            !subtree_keys(*old(self)).contains(key@) ==> ((r == DigestInsert::Added)
                == subtree_covers(*old(self), key@)),
            r == DigestInsert::KeyExists ==> subtree_keys(*final(self)) == subtree_keys(
                *old(self),
            ),
            r == DigestInsert::Added ==> {
                &&& *final(self) == subtree_after_insert(*old(self), key@, digest@)
                &&& subtree_keys(*final(self)) == subtree_keys(*old(self)).insert(key@)
                &&& subtree_leaves(*final(self)) == subtree_leaves(*old(self))
                &&& subtree_wf(*final(self))
                &&& (forall|k: Seq<u8>|
                    subtree_covers(*old(self), k) ==> subtree_covers(*final(self), k))
            },
            r == DigestInsert::Incomplete ==> *final(self) == *old(self),
            r != DigestInsert::Incomplete ==> subtree_root_ok(*final(self)) == subtree_root_ok(
                *old(self),
            ),
    {
        match self.inner.insert(*key, spacedb::subtree::ValueOrHash::Hash(*digest)) {
            Ok(()) => DigestInsert::Added,
            Err(spacedb::Error::Verify(spacedb::VerifyError::KeyExists)) => DigestInsert::KeyExists,
            Err(_) => DigestInsert::Incomplete,
        }
    }
}

} // verus!
