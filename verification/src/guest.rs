//! The guest verifier: replays one wire batch against its sparse-Merkle
//! proof fragment, applying signature-checked transfers to the included
//! leaves and registering the remaining entries, and commits the root pair.
use vstd::prelude::*;

verus! {

use vstd::slice::slice_subrange;
use vstd::slice::slice_index_get;
use vstd::slice::slice_to_vec;
use vstd::bytes::spec_u32_from_le_bytes;
use vstd::bytes::u32_from_le_bytes;
use crate::Entry;
use crate::EntryView;
use crate::HEADER_SIZE;
use crate::TransactionReader;
use crate::parse_entries;
use crate::crypto::ecdsa_verifies;
use crate::crypto::ecdsa_verify;
use crate::crypto::point_check;
use crate::crypto::sec1_point_valid;
use crate::crypto::signature_check;
use crate::crypto::signature_parses;
use crate::subtree::SubTree;
use crate::subtree::subtree_after_insert;
use crate::subtree::subtree_after_replace;
use crate::subtree::DigestInsert;
use crate::subtree::LeafWrite;
use crate::subtree::replace_leaf_value;
use crate::subtree::subtree_covers;
use crate::subtree::subtree_decodes;
use crate::subtree::subtree_keys;
use crate::subtree::subtree_leaves;
use crate::subtree::subtree_of;
use crate::subtree::subtree_root;
use crate::subtree::subtree_root_ok;
use crate::subtree::subtree_wf;
use crate::subtree::value_leaf_keyed;

broadcast use vstd::array::group_array_axioms;

/// A fatal error of batch verification: the proof run aborts on it.
#[derive(Debug, Clone, Copy, PartialEq, Eq, Structural)]
pub enum GuestError {
    /// A leaf value is not 32 bytes, or not a valid compressed point.
    ExpectedPublicKey,
    /// A subtree leaf key does not match the next update's subspace hash.
    UnalignedSubTree,
    /// A malformed or non-verifying signature.
    InvalidSignature,
    /// A witness tag other than the signature tag.
    UnsupportedWitness,
    /// An attempt to change an existing leaf with an empty witness.
    WitnessRequired,
    /// An attempt to register a name already present.
    KeyExists,
    /// The subtree proof does not cover an inserted key.
    IncompleteSubTree,
    /// The input is not a well-formed pair of subtree fragment and batch.
    /// (The host aborts proving on it, as it does on any guest error.)
    MalformedInput,
}

impl GuestError {
    /// A short description of the error.
    pub fn message(&self) -> &'static str {
        match self {
            GuestError::ExpectedPublicKey => "expected a public key",
            GuestError::UnalignedSubTree => "updates to subtree must be sorted",
            GuestError::InvalidSignature => "invalid signature",
            GuestError::UnsupportedWitness => "unsupported witness",
            GuestError::WitnessRequired => "changes to an existing name require a witness",
            GuestError::KeyExists => "cannot register a name that already exists",
            GuestError::IncompleteSubTree => "subtree is incomplete",
            GuestError::MalformedInput => "malformed guest input",
        }
    }
}

/// The public journal record of one batch: the space and the roots before
/// and after the transition.
#[derive(Debug, Clone, Copy)]
pub struct Commitment {
    pub space: [u8; 32],
    pub initial_root: [u8; 32],
    pub final_root: [u8; 32],
}

/// Byte-for-byte equality of two slices.
fn slice_eq(a: &[u8], b: &[u8]) -> (r: bool)
    ensures
        r == (a@ == b@),
{
    if a.len() != b.len() {
        proof {
            assert(a@ != b@);
        }
        return false;
    }
    let n = a.len();
    let mut i: usize = 0;
    while i < n
        invariant
            n == a@.len() && n == b@.len(),
            0 <= i <= n,
            forall|k: int| 0 <= k < i ==> a@[k] == b@[k],
        decreases n - i,
    {
        if *slice_index_get(a, i) != *slice_index_get(b, i) {
            proof {
                assert(a@[i as int] != b@[i as int]);
            }
            return false;
        }
        i += 1;
    }
    proof {
        assert(a@ =~= b@);
    }
    true
}

/// Copies a 32-byte slice into an array.
fn to_array32(s: &[u8]) -> (r: [u8; 32])
    requires
        s@.len() == 32,
    ensures
        r@ == s@,
{
    let mut a = [0u8; 32];
    let mut i: usize = 0;
    while i < 32
        invariant
            s@.len() == 32,
            0 <= i <= 32,
            a@.len() == 32,
            forall|k: int| 0 <= k < i ==> a@[k] == s@[k],
        decreases 32 - i,
    {
        a[i] = *slice_index_get(s, i);
        i += 1;
    }
    proof {
        assert(a@ =~= s@);
    }
    a
}

/// The complete outcome of one transfer attempt: the checks run in the
/// spec's order — alignment, leaf shape, witness presence, witness tag,
/// public-key parse, signature parse, signature verification — and the
/// first failure decides the error.
pub open spec fn transition_result(key: Seq<u8>, value: Seq<u8>, e: EntryView) -> Result<
    (),
    GuestError,
> {
    if key != e.subspace_hash {
        Err(GuestError::UnalignedSubTree)
    } else if value.len() != 32 {
        Err(GuestError::ExpectedPublicKey)
    } else if e.witness.len() == 0 {
        Err(GuestError::WitnessRequired)
    } else if e.witness[0] != 0u8 {
        Err(GuestError::UnsupportedWitness)
    } else if !sec1_point_valid(seq![2u8] + value) {
        Err(GuestError::ExpectedPublicKey)
    } else if !signature_parses(e.witness.skip(1)) {
        Err(GuestError::InvalidSignature)
    } else if !ecdsa_verifies(seq![2u8] + value, key + e.owner, e.witness.skip(1)) {
        Err(GuestError::InvalidSignature)
    } else {
        Ok(())
    }
}

/// Converts one existing leaf from its old owner to the entry's owner,
/// after verifying the old owner's signature over `leaf_key || new_owner`.
/// The outcome is exactly `transition_result`; the leaf value is written
/// only on success.
pub fn handle_transition(key: &[u8; 32], value: &mut Vec<u8>, tx: &Entry) -> (r: Result<
    (),
    GuestError,
>)
    ensures
        r == transition_result(key@, old(value)@, tx@),
        r is Ok ==> final(value)@ == tx@.owner,
        r is Err ==> final(value)@ == old(value)@,
{
    if !slice_eq(key.as_slice(), tx.subspace_hash) {
        return Err(GuestError::UnalignedSubTree);
    }
    if value.len() != 32 {
        return Err(GuestError::ExpectedPublicKey);
    }
    if tx.witness.len() == 0 {
        return Err(GuestError::WitnessRequired);
    }
    let tag = *slice_index_get(tx.witness, 0);
    if tag != 0x00 {
        return Err(GuestError::UnsupportedWitness);
    }
    let mut sec1: Vec<u8> = Vec::new();
    sec1.push(0x02);
    sec1.extend_from_slice(value.as_slice());
    proof {
        assert(sec1@ =~= seq![2u8] + value@);
    }
    if !point_check(sec1.as_slice()) {
        return Err(GuestError::ExpectedPublicKey);
    }
    let mut msg: Vec<u8> = Vec::new();
    msg.extend_from_slice(key.as_slice());
    msg.extend_from_slice(tx.owner);
    proof {
        assert(msg@ =~= key@ + tx@.owner);
    }
    let signature = slice_subrange(tx.witness, 1, tx.witness.len());
    proof {
        assert(signature@ =~= tx@.witness.skip(1));
    }
    if !signature_check(signature) {
        return Err(GuestError::InvalidSignature);
    }
    if !ecdsa_verify(sec1.as_slice(), msg.as_slice(), signature) {
        return Err(GuestError::InvalidSignature);
    }
    value.clear();
    value.extend_from_slice(tx.owner);
    Ok(())
}

/// The leaves after the zip step: the first `entries.len()` leaves carry
/// the corresponding entry's owner, the rest are unchanged.
pub open spec fn updated_leaves(
    leaves: Seq<(Seq<u8>, Seq<u8>)>,
    entries: Seq<EntryView>,
) -> Seq<(Seq<u8>, Seq<u8>)> {
    leaves.map(
        |i: int, p: (Seq<u8>, Seq<u8>)|
            if i < entries.len() {
                (p.0, entries[i].owner)
            } else {
                p
            },
    )
}

/// The outcome of the zipped transfer at one index.
pub open spec fn zip_result_at(
    leaves: Seq<(Seq<u8>, Seq<u8>)>,
    entries: Seq<EntryView>,
    i: int,
) -> Result<(), GuestError> {
    transition_result(leaves[i].0, leaves[i].1, entries[i])
}

/// Every zipped pair passes every transfer check, verification included.
pub open spec fn zip_ok(leaves: Seq<(Seq<u8>, Seq<u8>)>, entries: Seq<EntryView>) -> bool {
    forall|i: int|
        0 <= i < leaves.len() && i < entries.len() ==> #[trigger] zip_result_at(
            leaves,
            entries,
            i,
        ) is Ok
}

/// How many leaf/entry pairs the zip consumes: one per included leaf until
/// either side runs out.
pub open spec fn zip_count(leaves: Seq<(Seq<u8>, Seq<u8>)>, entries: Seq<EntryView>) -> int {
    if leaves.len() <= entries.len() {
        leaves.len() as int
    } else {
        entries.len() as int
    }
}

/// The fragment after the first `k` zipped replacements.
pub open spec fn apply_zip(
    t: SubTree,
    leaves: Seq<(Seq<u8>, Seq<u8>)>,
    entries: Seq<EntryView>,
    k: int,
) -> SubTree
    decreases k,
{
    if k <= 0 {
        t
    } else {
        subtree_after_replace(
            apply_zip(t, leaves, entries, k - 1),
            leaves[k - 1].0,
            entries[k - 1].owner,
        )
    }
}

/// The fragment after the first `m` registrations.
pub open spec fn apply_regs(t: SubTree, regs: Seq<EntryView>, m: int) -> SubTree
    decreases m,
{
    if m <= 0 {
        t
    } else {
        subtree_after_insert(
            apply_regs(t, regs, m - 1),
            regs[m - 1].subspace_hash,
            regs[m - 1].owner,
        )
    }
}

/// The zip decides the outcome: if the pairs before `i` pass and pair `i`
/// fails, the run answers exactly that failure.
pub open spec fn zip_error_forced(
    leaves: Seq<(Seq<u8>, Seq<u8>)>,
    entries: Seq<EntryView>,
    r: Result<Commitment, GuestError>,
) -> bool {
    forall|i: int|
        0 <= i < leaves.len() && i < entries.len() && (forall|j: int|
            0 <= j < i ==> #[trigger] zip_result_at(leaves, entries, j) is Ok) && !(
        #[trigger] zip_result_at(leaves, entries, i) is Ok) ==> r == Err::<Commitment, GuestError>(
            zip_result_at(leaves, entries, i)->Err_0,
        )
}

/// The registrations of a batch: the entries left after the zip consumed
/// one per included leaf.
pub open spec fn registrations_of(leaf_count: int, entries: Seq<EntryView>) -> Seq<EntryView> {
    if entries.len() > leaf_count {
        entries.skip(leaf_count)
    } else {
        Seq::empty()
    }
}

/// The key set after registering each remaining entry in turn.
pub open spec fn keys_after(keys: Set<Seq<u8>>, regs: Seq<EntryView>) -> Set<Seq<u8>>
    decreases regs.len(),
{
    if regs.len() == 0 {
        keys
    } else {
        keys_after(keys.insert(regs[0].subspace_hash), regs.drop_first())
    }
}

/// Every registration key is fresh at its turn: absent from the initial
/// keys and from the registrations before it.
pub open spec fn regs_fresh(keys: Set<Seq<u8>>, regs: Seq<EntryView>) -> bool
    decreases regs.len(),
{
    if regs.len() == 0 {
        true
    } else {
        !keys.contains(regs[0].subspace_hash) && regs_fresh(
            keys.insert(regs[0].subspace_hash),
            regs.drop_first(),
        )
    }
}

/// The fragment covers every registration key.
pub open spec fn regs_covered(before: SubTree, regs: Seq<EntryView>) -> bool {
    forall|j: int|
        0 <= j < regs.len() ==> #[trigger] subtree_covers(before, regs[j].subspace_hash)
}

proof fn lemma_keys_after_snoc(keys: Set<Seq<u8>>, regs: Seq<EntryView>, x: EntryView)
    ensures
        keys_after(keys, regs.push(x)) == keys_after(keys, regs).insert(x.subspace_hash),
    decreases regs.len(),
{
    if regs.len() == 0 {
        assert(regs.push(x)[0] == x);
        assert(regs.push(x).drop_first() =~= Seq::<EntryView>::empty());
        assert(keys_after(keys, regs.push(x)) == keys_after(
            keys.insert(x.subspace_hash),
            regs.push(x).drop_first(),
        ));
        assert(keys_after(keys.insert(x.subspace_hash), regs.push(x).drop_first()) == keys.insert(
            x.subspace_hash,
        ));
        assert(keys_after(keys, regs) == keys);
    } else {
        assert(regs.push(x)[0] == regs[0]);
        assert(regs.push(x).drop_first() =~= regs.drop_first().push(x));
        lemma_keys_after_snoc(keys.insert(regs[0].subspace_hash), regs.drop_first(), x);
        assert(keys_after(keys, regs.push(x)) == keys_after(
            keys.insert(regs[0].subspace_hash),
            regs.drop_first().push(x),
        ));
        assert(keys_after(keys, regs) == keys_after(
            keys.insert(regs[0].subspace_hash),
            regs.drop_first(),
        ));
    }
}

proof fn lemma_regs_fresh_snoc(keys: Set<Seq<u8>>, regs: Seq<EntryView>, x: EntryView)
    ensures
        regs_fresh(keys, regs.push(x)) == (regs_fresh(keys, regs) && !keys_after(
            keys,
            regs,
        ).contains(x.subspace_hash)),
    decreases regs.len(),
{
    if regs.len() == 0 {
        assert(regs.push(x)[0] == x);
        assert(regs.push(x).drop_first() =~= Seq::<EntryView>::empty());
        assert(regs_fresh(keys, regs.push(x)) == (!keys.contains(x.subspace_hash) && regs_fresh(
            keys.insert(x.subspace_hash),
            regs.push(x).drop_first(),
        )));
        assert(regs_fresh(keys.insert(x.subspace_hash), regs.push(x).drop_first()));
        assert(keys_after(keys, regs) == keys);
    } else {
        assert(regs.push(x)[0] == regs[0]);
        assert(regs.push(x).drop_first() =~= regs.drop_first().push(x));
        lemma_regs_fresh_snoc(keys.insert(regs[0].subspace_hash), regs.drop_first(), x);
        assert(regs_fresh(keys, regs.push(x)) == (!keys.contains(regs[0].subspace_hash)
            && regs_fresh(keys.insert(regs[0].subspace_hash), regs.drop_first().push(x))));
        assert(keys_after(keys, regs) == keys_after(
            keys.insert(regs[0].subspace_hash),
            regs.drop_first(),
        ));
    }
}

proof fn lemma_regs_fresh_step(keys: Set<Seq<u8>>, regs: Seq<EntryView>, j: int)
    requires
        0 <= j < regs.len(),
        regs_fresh(keys, regs.take(j + 1)),
    ensures
        !keys_after(keys, regs.take(j)).contains(regs[j].subspace_hash),
{
    assert(regs.take(j + 1) =~= regs.take(j).push(regs[j]));
    lemma_regs_fresh_snoc(keys, regs.take(j), regs[j]);
}

proof fn lemma_regs_fresh_prefix(keys: Set<Seq<u8>>, regs: Seq<EntryView>, m: int)
    requires
        0 <= m <= regs.len(),
        regs_fresh(keys, regs),
    ensures
        regs_fresh(keys, regs.take(m)),
    decreases m,
{
    if m > 0 {
        assert(regs.take(m)[0] == regs[0]);
        assert(regs.take(m).drop_first() =~= regs.drop_first().take(m - 1));
        lemma_regs_fresh_prefix(keys.insert(regs[0].subspace_hash), regs.drop_first(), m - 1);
    }
}

proof fn lemma_zip_error_forced_when_ok(
    leaves: Seq<(Seq<u8>, Seq<u8>)>,
    entries: Seq<EntryView>,
    r: Result<Commitment, GuestError>,
)
    requires
        forall|j: int|
            0 <= j < leaves.len() && j < entries.len() ==> #[trigger] zip_result_at(
                leaves,
                entries,
                j,
            ) is Ok,
    ensures
        zip_error_forced(leaves, entries, r),
{
    assert forall|i: int|
        0 <= i < leaves.len() && i < entries.len() && (forall|j: int|
            0 <= j < i ==> #[trigger] zip_result_at(leaves, entries, j) is Ok) && !(
    #[trigger] zip_result_at(leaves, entries, i) is Ok) implies r == Err::<Commitment, GuestError>(
        zip_result_at(leaves, entries, i)->Err_0,
    ) by {
        assert(zip_result_at(leaves, entries, i) is Ok);
    }
}

proof fn lemma_zip_error_forced_at(
    leaves: Seq<(Seq<u8>, Seq<u8>)>,
    entries: Seq<EntryView>,
    i0: int,
    e: GuestError,
)
    requires
        0 <= i0 < leaves.len(),
        i0 < entries.len(),
        forall|j: int| 0 <= j < i0 ==> #[trigger] zip_result_at(leaves, entries, j) is Ok,
        zip_result_at(leaves, entries, i0) == Err::<(), GuestError>(e),
    ensures
        zip_error_forced(leaves, entries, Err::<Commitment, GuestError>(e)),
{
    assert forall|i: int|
        0 <= i < leaves.len() && i < entries.len() && (forall|j: int|
            0 <= j < i ==> #[trigger] zip_result_at(leaves, entries, j) is Ok) && !(
    #[trigger] zip_result_at(leaves, entries, i) is Ok) implies Err::<Commitment, GuestError>(
        e,
    ) == Err::<Commitment, GuestError>(zip_result_at(leaves, entries, i)->Err_0) by {
        if i < i0 {
            assert(zip_result_at(leaves, entries, i) is Ok);
        } else if i > i0 {
            assert(zip_result_at(leaves, entries, i0) is Ok);
        }
    }
}

/// A conflicting registration decides the outcome: when the registrations
/// before `j` are fresh and covered and registration `j` names a key
/// already taken at its turn, the run answers the key-exists error.
pub open spec fn key_exists_forced(
    before: SubTree,
    keys: Set<Seq<u8>>,
    regs: Seq<EntryView>,
    r: Result<Commitment, GuestError>,
) -> bool {
    forall|j: int|
        0 <= j < regs.len() && regs_fresh(keys, #[trigger] regs.take(j)) && (forall|p: int|
            0 <= p < j ==> subtree_covers(before, (#[trigger] regs[p]).subspace_hash))
            && keys_after(keys, regs.take(j)).contains(regs[j].subspace_hash) ==> r == Err::<
            Commitment,
            GuestError,
        >(GuestError::KeyExists)
}

/// The inputs on which one batch must be accepted: a recomputable root,
/// every zipped transfer verifying, and every remaining registration fresh
/// and covered. (Fragment well-formedness is a precondition of processing,
/// not part of acceptance.)
pub open spec fn batch_accepts(before: SubTree, batch: Seq<u8>) -> bool {
    let leaves = subtree_leaves(before);
    let entries = parse_entries(batch.skip(HEADER_SIZE as int));
    let regs = registrations_of(leaves.len() as int, entries);
    &&& batch.len() >= HEADER_SIZE
    &&& subtree_root_ok(before)
    &&& zip_ok(leaves, entries)
    &&& regs_fresh(subtree_keys(before), regs)
    &&& regs_covered(before, regs)
}

/// What one processed batch guarantees on a well-formed fragment, relating
/// the fragment before and after to the batch bytes and the outcome. On
/// success the output fragment is a function of the inputs, so the
/// committed roots are too.
pub open spec fn batch_post(
    before: SubTree,
    after: SubTree,
    batch: Seq<u8>,
    r: Result<Commitment, GuestError>,
) -> bool {
    let leaves = subtree_leaves(before);
    let keys = subtree_keys(before);
    let entries = parse_entries(batch.skip(HEADER_SIZE as int));
    let regs = registrations_of(leaves.len() as int, entries);
    &&& (r matches Ok(c) ==> {
        &&& c.space@ == batch.subrange(1, HEADER_SIZE as int)
        &&& c.initial_root@ == subtree_root(before)
        &&& c.final_root@ == subtree_root(after)
        &&& after == apply_regs(
            apply_zip(before, leaves, entries, zip_count(leaves, entries)),
            regs,
            regs.len() as int,
        )
        &&& zip_ok(leaves, entries)
        &&& subtree_leaves(after) == updated_leaves(leaves, entries)
        &&& subtree_keys(after) == keys_after(keys, regs)
        &&& regs_fresh(keys, regs)
    })
    &&& (r == Err::<Commitment, GuestError>(GuestError::MalformedInput)) == !subtree_root_ok(
        before,
    )
    &&& (entries.len() == 0 && subtree_root_ok(before) ==> r is Ok && after == before)
    &&& (entries.len() == 0 ==> (r matches Ok(c) ==> c.initial_root == c.final_root))
    &&& (r == Err::<Commitment, GuestError>(GuestError::KeyExists) ==> !regs_fresh(keys, regs))
    &&& (subtree_root_ok(before) ==> zip_error_forced(leaves, entries, r))
    &&& ((r == Err::<Commitment, GuestError>(GuestError::KeyExists) || r == Err::<
        Commitment,
        GuestError,
    >(GuestError::IncompleteSubTree)) ==> zip_ok(leaves, entries))
    &&& (subtree_root_ok(before) && zip_ok(leaves, entries) ==> key_exists_forced(
        before,
        keys,
        regs,
        r,
    ))
    &&& (batch_accepts(before, batch) ==> r is Ok)
}

/// Replays one batch against its proof fragment: walks the included leaves
/// in iteration order zipped with the batch entries, applying
/// `handle_transition` to each pair, registers every remaining entry as a
/// new digest leaf, and commits the roots before and after.
pub fn process_batch(subtree: &mut SubTree, batch: &[u8]) -> (r: Result<Commitment, GuestError>)
    requires
        subtree_wf(*old(subtree)),
    ensures
        batch@.len() < HEADER_SIZE ==> r == Err::<Commitment, GuestError>(
            GuestError::MalformedInput,
        ) && *final(subtree) == *old(subtree),
        batch@.len() >= HEADER_SIZE ==> batch_post(*old(subtree), *final(subtree), batch@, r),
{
    if batch.len() < HEADER_SIZE {
        return Err(GuestError::MalformedInput);
    }
    let reader = TransactionReader::new(batch);
    let initial_root = match subtree.compute_root() {
        Some(h) => h,
        None => {
            return Err(GuestError::MalformedInput);
        },
    };
    let space = reader.space_hash();
    let leaves = subtree.entries();
    let ghost e0 = parse_entries(batch@.skip(HEADER_SIZE as int));
    let ghost l0 = subtree_leaves(*subtree);
    let ghost k0 = subtree_keys(*subtree);
    let mut txs = reader.iter();
    let n = leaves.len();
    let mut i: usize = 0;
    proof {
        assert(e0.skip(0) =~= e0);
        assert(updated_leaves(l0, e0.take(0)) =~= l0);
    }
    while i < n
        invariant
            n == leaves@.len(),
            0 <= i <= n,
            i <= e0.len(),
            l0 == subtree_leaves(*old(subtree)),
            k0 == subtree_keys(*old(subtree)),
            subtree_wf(*old(subtree)),
            subtree_root_ok(*old(subtree)),
            subtree_root_ok(*subtree),
            subtree_wf(*subtree),
            forall|k: Seq<u8>| subtree_covers(*old(subtree), k) ==> subtree_covers(*subtree, k),
            initial_root@ == subtree_root(*old(subtree)),
            leaves@.map_values(|p: ([u8; 32], Vec<u8>)| (p.0@, p.1@)) == l0,
            forall|k: int| 0 <= k < n ==> k0.contains(#[trigger] leaves@[k].0@),
            forall|p: int, q: int|
                0 <= p < n && 0 <= q < n && p != q ==> #[trigger] leaves@[p].0@
                    != #[trigger] leaves@[q].0@,
            e0 == parse_entries(batch@.skip(HEADER_SIZE as int)),
            batch@.len() >= HEADER_SIZE,
            parse_entries(txs@) == e0.skip(i as int),
            subtree_keys(*subtree) == k0,
            subtree_leaves(*subtree) == updated_leaves(l0, e0.take(i as int)),
            *subtree == apply_zip(*old(subtree), l0, e0, i as int),
            forall|j: int| 0 <= j < i ==> #[trigger] zip_result_at(l0, e0, j) is Ok,
            e0.len() == 0 ==> *subtree == *old(subtree),
        ensures
            i == n || i == e0.len(),
        decreases n - i,
    {
        let next = txs.next();
        match next {
            None => {
                proof {
                    assert(e0.skip(i as int).len() == 0);
                    assert(i == e0.len());
                    assert(parse_entries(txs@) =~= e0.skip(i as int));
                }
                break ;
            },
            Some(tx) => {
                proof {
                    assert(e0.skip(i as int).len() > 0);
                    assert(i < e0.len());
                    assert(e0.skip(i as int)[0] == e0[i as int]);
                    assert(tx@ == e0[i as int]);
                    assert((seq![tx@] + parse_entries(txs@)).drop_first() =~= parse_entries(txs@));
                    assert(e0.skip(i as int).drop_first() =~= e0.skip(i + 1));
                    assert(parse_entries(txs@) == e0.skip(i + 1));
                    assert(l0[i as int] == (leaves@[i as int].0@, leaves@[i as int].1@));
                }
                let key_arr = leaves[i].0;
                let mut v = slice_to_vec(leaves[i].1.as_slice());
                match handle_transition(&key_arr, &mut v, &tx) {
                    Err(e) => {
                        proof {
                            assert(zip_result_at(l0, e0, i as int) == Err::<(), GuestError>(e));
                            lemma_zip_error_forced_at(l0, e0, i as int, e);
                            assert(e != GuestError::KeyExists && e != GuestError::IncompleteSubTree
                                && e != GuestError::MalformedInput);
                            assert(!zip_ok(l0, e0)) by {
                                assert(!(zip_result_at(l0, e0, i as int) is Ok));
                            }
                            if batch_accepts(*old(subtree), batch@) {
                                assert(zip_result_at(l0, e0, i as int) is Ok);
                            }
                        }
                        return Err(e);
                    },
                    Ok(()) => {},
                }
                proof {
                    assert(zip_result_at(l0, e0, i as int) is Ok);
                    assert(v@ == e0[i as int].owner);
                    assert(key_arr@ == l0[i as int].0);
                    assert(subtree_keys(*subtree).contains(key_arr@));
                }
                let ghost before_leaves = subtree_leaves(*subtree);
                let ghost before_fragment = *subtree;
                let write = subtree.set_value(&key_arr, v.as_slice());
                match write {
                    LeafWrite::Replaced => {},
                    _ => {
                        proof {
                            assert(false);
                        }
                        return Err(GuestError::IncompleteSubTree);
                    },
                }
                proof {
                    assert(*subtree == subtree_after_replace(before_fragment, key_arr@, v@));
                    assert(*subtree == apply_zip(*old(subtree), l0, e0, i + 1));
                    assert(value_leaf_keyed(before_leaves, key_arr@)) by {
                        assert(before_leaves[i as int].0 == l0[i as int].0);
                    }
                    assert(subtree_leaves(*subtree) == replace_leaf_value(
                        before_leaves,
                        key_arr@,
                        v@,
                    ));
                    assert forall|j: int| 0 <= j < l0.len() implies replace_leaf_value(
                        before_leaves,
                        l0[i as int].0,
                        e0[i as int].owner,
                    )[j] == updated_leaves(l0, e0.take(i + 1))[j] by {
                        assert(before_leaves[j] == updated_leaves(l0, e0.take(i as int))[j]);
                        assert(before_leaves[j].0 == l0[j].0);
                        if j != i {
                            assert(l0[j].0 == leaves@[j].0@);
                            assert(l0[i as int].0 == leaves@[i as int].0@);
                            assert(l0[j].0 != l0[i as int].0);
                        }
                        assert(e0.take(i + 1)[j] == e0[j] || j > i);
                    }
                    assert(replace_leaf_value(before_leaves, l0[i as int].0, e0[i as int].owner)
                        =~= updated_leaves(l0, e0.take(i + 1)));
                }
                i += 1;
            },
        }
    }
    let ghost regs = registrations_of(l0.len() as int, e0);
    let ghost mut m: int = 0;
    proof {
        assert(regs.take(0) =~= Seq::<EntryView>::empty());
    }
    loop
        invariant
            n == l0.len(),
            0 <= i <= n,
            i <= e0.len(),
            i == n || i == e0.len(),
            0 <= m,
            i + m <= e0.len(),
            m <= regs.len(),
            regs == registrations_of(l0.len() as int, e0),
            l0 == subtree_leaves(*old(subtree)),
            k0 == subtree_keys(*old(subtree)),
            subtree_wf(*old(subtree)),
            subtree_root_ok(*old(subtree)),
            subtree_root_ok(*subtree),
            subtree_wf(*subtree),
            forall|k: Seq<u8>| subtree_covers(*old(subtree), k) ==> subtree_covers(*subtree, k),
            initial_root@ == subtree_root(*old(subtree)),
            e0 == parse_entries(batch@.skip(HEADER_SIZE as int)),
            batch@.len() >= HEADER_SIZE,
            parse_entries(txs@) == e0.skip(i + m),
            subtree_keys(*subtree) == keys_after(k0, regs.take(m)),
            regs_fresh(k0, regs.take(m)),
            subtree_leaves(*subtree) == updated_leaves(l0, e0.take(i as int)),
            *subtree == apply_regs(apply_zip(*old(subtree), l0, e0, i as int), regs, m),
            forall|j: int| 0 <= j < i ==> #[trigger] zip_result_at(l0, e0, j) is Ok,
            e0.len() == 0 ==> *subtree == *old(subtree),
        ensures
            i + m == e0.len(),
            m == regs.len(),
        decreases txs@.len(),
    {
        let next = txs.next();
        match next {
            None => {
                proof {
                    assert(e0.skip(i + m).len() == 0);
                    assert(i + m == e0.len());
                    if e0.len() > n {
                        assert(i == n);
                        assert(m == regs.len());
                    } else {
                        assert(regs.len() == 0);
                        assert(m == 0);
                    }
                    assert(parse_entries(txs@) =~= e0.skip(i + m));
                }
                break ;
            },
            Some(tx) => {
                proof {
                    assert(e0.skip(i + m).len() > 0);
                    assert(i + m < e0.len());
                    assert(e0.skip(i + m)[0] == e0[i + m]);
                    assert(tx@ == e0[i + m]);
                    assert((seq![tx@] + parse_entries(txs@)).drop_first() =~= parse_entries(txs@));
                    assert(e0.skip(i + m).drop_first() =~= e0.skip(i + m + 1));
                    assert(parse_entries(txs@) == e0.skip(i + m + 1));
                    assert(i < e0.len());
                    assert(i == n);
                    assert(e0.len() > n);
                    assert(regs[m] == e0[n + m]);
                }
                let key_arr = to_array32(tx.subspace_hash);
                let owner_arr = to_array32(tx.owner);
                match subtree.insert_digest(&key_arr, &owner_arr) {
                    DigestInsert::Added => {
                        proof {
                            assert(regs.take(m).push(regs[m]) =~= regs.take(m + 1));
                            lemma_keys_after_snoc(k0, regs.take(m), regs[m]);
                            lemma_regs_fresh_snoc(k0, regs.take(m), regs[m]);
                            assert(!keys_after(k0, regs.take(m)).contains(regs[m].subspace_hash));
                            assert(*subtree == apply_regs(
                                apply_zip(*old(subtree), l0, e0, i as int),
                                regs,
                                m + 1,
                            ));
                            m = m + 1;
                        }
                    },
                    DigestInsert::KeyExists => {
                        proof {
                            assert(keys_after(k0, regs.take(m)).contains(regs[m].subspace_hash));
                            assert(regs.take(m).push(regs[m]) =~= regs.take(m + 1));
                            lemma_regs_fresh_snoc(k0, regs.take(m), regs[m]);
                            assert(!regs_fresh(k0, regs.take(m + 1)));
                            assert(!regs_fresh(k0, regs)) by {
                                if regs_fresh(k0, regs) {
                                    lemma_regs_fresh_prefix(k0, regs, m + 1);
                                }
                            }
                            lemma_zip_error_forced_when_ok(
                                l0,
                                e0,
                                Err::<Commitment, GuestError>(GuestError::KeyExists),
                            );
                            if batch_accepts(*old(subtree), batch@) {
                                assert(regs_fresh(k0, regs));
                            }
                        }
                        return Err(GuestError::KeyExists);
                    },
                    DigestInsert::Incomplete => {
                        proof {
                            lemma_zip_error_forced_when_ok(
                                l0,
                                e0,
                                Err::<Commitment, GuestError>(GuestError::IncompleteSubTree),
                            );
                            {
                                assert forall|j: int|
                                    0 <= j < regs.len() && regs_fresh(
                                        k0,
                                        #[trigger] regs.take(j),
                                    ) && (forall|p: int|
                                        0 <= p < j ==> subtree_covers(
                                            *old(subtree),
                                            (#[trigger] regs[p]).subspace_hash,
                                        )) && keys_after(k0, regs.take(j)).contains(
                                        regs[j].subspace_hash,
                                    ) implies false by {
                                    if j < m {
                                        lemma_regs_fresh_prefix(k0, regs.take(m), j + 1);
                                        assert(regs.take(m).take(j + 1) =~= regs.take(j + 1));
                                        lemma_regs_fresh_step(k0, regs, j);
                                    } else if j == m {
                                        assert(!subtree_keys(*subtree).contains(
                                            regs[m].subspace_hash,
                                        ));
                                    } else {
                                        assert(subtree_covers(
                                            *old(subtree),
                                            regs[m].subspace_hash,
                                        ));
                                        assert(subtree_covers(*subtree, regs[m].subspace_hash));
                                        lemma_regs_fresh_prefix(k0, regs.take(j), m + 1);
                                        assert(regs.take(j).take(m + 1) =~= regs.take(m + 1));
                                        lemma_regs_fresh_step(k0, regs, m);
                                        assert(!subtree_keys(*subtree).contains(
                                            regs[m].subspace_hash,
                                        ));
                                        assert(false);
                                    }
                                }
                            }
                            if batch_accepts(*old(subtree), batch@) {
                                lemma_regs_fresh_prefix(k0, regs, m);
                                assert(subtree_covers(*old(subtree), regs[m].subspace_hash));
                                assert(subtree_covers(*subtree, regs[m].subspace_hash));
                                assert(regs_fresh(k0, regs.take(m + 1))) by {
                                    lemma_regs_fresh_prefix(k0, regs, m + 1);
                                }
                                assert(regs.take(m + 1) =~= regs.take(m).push(regs[m]));
                                lemma_regs_fresh_snoc(k0, regs.take(m), regs[m]);
                                assert(!keys_after(k0, regs.take(m)).contains(
                                    regs[m].subspace_hash,
                                ));
                                assert(!subtree_keys(*subtree).contains(key_arr@));
                                assert(false);
                            }
                        }
                        return Err(GuestError::IncompleteSubTree);
                    },
                }
            },
        }
    }
    proof {
        assert(regs.take(m) =~= regs);
    }
    let final_root = match subtree.compute_root() {
        Some(h) => h,
        None => {
            proof {
                assert(false);
            }
            return Err(GuestError::MalformedInput);
        },
    };
    let space_arr = to_array32(space);
    proof {
        assert(updated_leaves(l0, e0.take(i as int)) =~= updated_leaves(l0, e0)) by {
            assert(forall|j: int|
                0 <= j < l0.len() ==> #[trigger] updated_leaves(l0, e0.take(i as int))[j]
                    == updated_leaves(l0, e0)[j]);
        }
        assert(i as int == zip_count(l0, e0));
        if e0.len() == 0 {
            assert(final_root@ == initial_root@);
            assert(final_root =~= initial_root);
        }
        lemma_zip_error_forced_when_ok(
            l0,
            e0,
            Ok::<Commitment, GuestError>(
                Commitment { space: space_arr, initial_root, final_root },
            ),
        );
        assert forall|j: int|
            0 <= j < regs.len() && regs_fresh(k0, #[trigger] regs.take(j)) && (forall|p: int|
                0 <= p < j ==> subtree_covers(
                    *old(subtree),
                    (#[trigger] regs[p]).subspace_hash,
                )) && keys_after(k0, regs.take(j)).contains(regs[j].subspace_hash) implies false by {
            lemma_regs_fresh_prefix(k0, regs, j + 1);
            lemma_regs_fresh_step(k0, regs, j);
        }
        assert(space_arr@ == batch@.subrange(1, HEADER_SIZE as int));
    }
    Ok(Commitment { space: space_arr, initial_root, final_root })
}

/// What one guest input guarantees: the framing of subtree fragment and
/// batch is enforced, and on a decodable fragment the per-batch contract
/// `batch_post` holds against the decoded fragment.
pub open spec fn tx_set_post(input: Seq<u8>, r: Result<Commitment, GuestError>) -> bool {
    let n = spec_u32_from_le_bytes(input.subrange(0, 4)) as int;
    let fragment = input.subrange(4, 4 + n);
    let batch = input.skip(4 + n);
    &&& (input.len() < 4 ==> r == Err::<Commitment, GuestError>(GuestError::MalformedInput))
    &&& (input.len() >= 4 && 4 + n > input.len() ==> r == Err::<Commitment, GuestError>(
        GuestError::MalformedInput,
    ))
    &&& (input.len() >= 4 && 4 + n <= input.len() && !subtree_decodes(fragment) ==> r == Err::<
        Commitment,
        GuestError,
    >(GuestError::MalformedInput))
    &&& (input.len() >= 4 && 4 + n <= input.len() && batch.len() < HEADER_SIZE ==> r == Err::<
        Commitment,
        GuestError,
    >(GuestError::MalformedInput))
    &&& (input.len() >= 4 && 4 + n <= input.len() && subtree_decodes(fragment) && batch.len()
        >= HEADER_SIZE ==> exists|after: SubTree|
        #[trigger] batch_post(subtree_of(fragment), after, batch, r))
    &&& (r matches Ok(c) ==> input.len() >= 4 && 4 + n + HEADER_SIZE <= input.len()
        && subtree_decodes(fragment) && c.space@ == input.subrange(4 + n + 1, 4 + n + HEADER_SIZE))
}

/// The assumption the guest makes of one input's fragment: if the framed
/// bytes decode, the fragment they decode to is well formed. spacedb's
/// decoder cannot check this and offers no validation call, and on an
/// ill-formed fragment its mutations can panic, so the assumption about the
/// proving party's own store is carried here rather than hidden in the
/// boundary.
pub open spec fn input_fragment_wf(input: Seq<u8>) -> bool {
    let n = spec_u32_from_le_bytes(input.subrange(0, 4)) as int;
    let fragment = input.subrange(4, 4 + n);
    (input.len() >= 4 && 4 + n <= input.len() && subtree_decodes(fragment)) ==> subtree_wf(
        subtree_of(fragment),
    )
}

/// The inputs on which one guest input must be accepted: well-formed
/// framing, a decodable fragment, and a batch that `batch_accepts` against
/// it.
pub open spec fn tx_set_accepts(input: Seq<u8>) -> bool {
    let n = spec_u32_from_le_bytes(input.subrange(0, 4)) as int;
    let fragment = input.subrange(4, 4 + n);
    let batch = input.skip(4 + n);
    &&& input.len() >= 4
    &&& 4 + n <= input.len()
    &&& subtree_decodes(fragment)
    &&& batch_accepts(subtree_of(fragment), batch)
}

/// Handles one guest input: a little-endian `u32` length, the serialized
/// subtree fragment of that length, then the wire batch. A frame that does
/// not fit, a fragment that does not decode, or a batch shorter than a
/// header is malformed.
pub fn handle_tx_set(input: &[u8]) -> (r: Result<Commitment, GuestError>)
    requires
        input_fragment_wf(input@),
    ensures
        tx_set_post(input@, r),
        tx_set_accepts(input@) ==> r is Ok,
{
    if input.len() < 4 {
        return Err(GuestError::MalformedInput);
    }
    let n = u32_from_le_bytes(slice_subrange(input, 0, 4)) as usize;
    if n > input.len() - 4 {
        return Err(GuestError::MalformedInput);
    }
    let subtree_bytes = slice_subrange(input, 4, 4 + n);
    let mut fragment = match SubTree::decode(subtree_bytes) {
        Some(t) => t,
        None => {
            return Err(GuestError::MalformedInput);
        },
    };
    let batch = slice_subrange(input, 4 + n, input.len());
    let r = process_batch(&mut fragment, batch);
    proof {
        let ghost_n = spec_u32_from_le_bytes(input@.subrange(0, 4)) as int;
        assert(ghost_n == n as int);
        assert(batch@ =~= input@.skip(4 + ghost_n));
        if batch@.len() < HEADER_SIZE {
            assert(r == Err::<Commitment, GuestError>(GuestError::MalformedInput));
        } else {
            assert(batch_post(subtree_of(input@.subrange(4, 4 + ghost_n)), fragment, batch@, r));
            if r is Ok {
                let c = r->Ok_0;
                assert(c.space@ == batch@.subrange(1, HEADER_SIZE as int));
                assert(batch@.subrange(1, HEADER_SIZE as int) =~= input@.subrange(
                    4 + ghost_n + 1,
                    4 + ghost_n + HEADER_SIZE,
                ));
            }
        }
    }
    r
}

/// Runs the guest over a sequence of inputs, committing one record per
/// input in order; the first failing input aborts the run with its error,
/// and a run whose inputs are all acceptable cannot fail.
pub fn run(input: Vec<Vec<u8>>) -> (r: Result<Vec<Commitment>, GuestError>)
    requires
        forall|i: int| 0 <= i < input@.len() ==> input_fragment_wf(#[trigger] input@[i]@),
    ensures
        r matches Ok(cs) ==> cs@.len() == input@.len() && forall|i: int|
            0 <= i < input@.len() ==> tx_set_post(#[trigger] input@[i]@, Ok(cs@[i])),
        r matches Err(e) ==> exists|i: int|
            {
                &&& 0 <= i < input@.len()
                &&& tx_set_post(#[trigger] input@[i]@, Err::<Commitment, GuestError>(e))
                &&& !tx_set_accepts(input@[i]@)
                &&& exists|cs: Seq<Commitment>|
                    cs.len() == i && forall|j: int|
                        0 <= j < i ==> tx_set_post(#[trigger] input@[j]@, Ok(cs[j]))
            },
        (forall|i: int| 0 <= i < input@.len() ==> tx_set_accepts(#[trigger] input@[i]@)) ==> r
            is Ok,
{
    let mut commitments: Vec<Commitment> = Vec::new();
    let n = input.len();
    let mut i: usize = 0;
    while i < n
        invariant
            n == input@.len(),
            0 <= i <= n,
            commitments@.len() == i,
            forall|j: int| 0 <= j < n ==> input_fragment_wf(#[trigger] input@[j]@),
            forall|j: int| 0 <= j < i ==> tx_set_post(#[trigger] input@[j]@, Ok(commitments@[j])),
        decreases n - i,
    {
        let item = &input[i];
        match handle_tx_set(item.as_slice()) {
            Ok(c) => {
                commitments.push(c);
            },
            Err(e) => {
                proof {
                    assert(!tx_set_accepts(input@[i as int]@));
                }
                return Err(e);
            },
        }
        i += 1;
    }
    Ok(commitments)
}

} // verus!

