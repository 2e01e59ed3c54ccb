//! Host-side batch construction: transactions, the deterministic builder,
//! the canonical sort and the wire serialization.
use vstd::prelude::*;

verus! {

use vstd::bytes::spec_u16_to_le_bytes;
use vstd::bytes::u16_to_le_bytes;
use vstd::utf8::encode_utf8;
use vstd::multiset::Multiset;
use crate::crypto::OwnerPublicKey;
use crate::crypto::SigningKey;
use crate::crypto::key_scalar;
use crate::crypto::sha256;
use crate::crypto::sha256_of;
use crate::crypto::sig_of;
use crate::crypto::sign_message;

broadcast use vstd::array::group_array_axioms;

/// Mathematical view of a transaction.
#[verifier::ext_equal]
pub ghost struct TxView {
    pub name: Seq<char>,
    pub owner: Seq<u8>,
    pub witness: Seq<u8>,
    pub key: Seq<u8>,
}

/// The hash of a name's UTF-8 bytes: subspace keys and space identifiers
/// alike are SHA-256 of the name.
pub open spec fn name_hash(name: Seq<char>) -> Seq<u8> {
    sha256_of(encode_utf8(name))@
}

/// A transaction with its cached subspace key recomputed from its name.
pub open spec fn with_key(t: TxView) -> TxView {
    TxView { key: name_hash(t.name), ..t }
}

/// Every transaction of a sequence with its subspace key recomputed.
pub open spec fn with_keys(s: Seq<TxView>) -> Seq<TxView> {
    s.map_values(|t: TxView| with_key(t))
}

/// Canonical order group of a transaction: updates (non-empty witness)
/// sort before registrations (empty witness).
pub open spec fn tx_group(t: TxView) -> int {
    if t.witness.len() == 0 {
        1
    } else {
        0
    }
}

/// Lexicographic order on byte sequences.
pub open spec fn lex_leq(a: Seq<u8>, b: Seq<u8>) -> bool
    decreases a.len(),
{
    if a.len() == 0 {
        true
    } else if b.len() == 0 {
        false
    } else if a[0] < b[0] {
        true
    } else if a[0] > b[0] {
        false
    } else {
        lex_leq(a.drop_first(), b.drop_first())
    }
}

/// The canonical (non-strict) order on transactions: updates before
/// registrations, then ascending subspace key.
pub open spec fn tx_leq(a: TxView, b: TxView) -> bool {
    tx_group(a) < tx_group(b) || (tx_group(a) == tx_group(b) && lex_leq(a.key, b.key))
}

/// Insertion into a sorted sequence: `x` lands in front of the first
/// element it is less-than-or-equal to, so an element inserted later never
/// overtakes an equal, earlier one.
pub open spec fn insert_sorted(x: TxView, s: Seq<TxView>) -> Seq<TxView>
    decreases s.len(),
{
    if s.len() > 0 && !tx_leq(x, s[0]) {
        seq![s[0]] + insert_sorted(x, s.drop_first())
    } else {
        seq![x] + s
    }
}

/// The canonical sort: a stable insertion sort under `tx_leq`.
pub open spec fn sort_txs(s: Seq<TxView>) -> Seq<TxView>
    decreases s.len(),
{
    if s.len() == 0 {
        s
    } else {
        insert_sorted(s[0], sort_txs(s.drop_first()))
    }
}

/// One wire frame: little-endian `u16` length, subspace key, owner,
/// witness.
pub open spec fn encode_entry(t: TxView) -> Seq<u8> {
    spec_u16_to_le_bytes((64 + t.witness.len()) as u16) + t.key + t.owner + t.witness
}

/// The wire frames of a transaction sequence, in order.
pub open spec fn encode_entries(s: Seq<TxView>) -> Seq<u8>
    decreases s.len(),
{
    if s.len() == 0 {
        Seq::empty()
    } else {
        encode_entry(s[0]) + encode_entries(s.drop_first())
    }
}

/// A whole wire batch: version byte, 32-byte space hash, then the frames.
pub open spec fn wire_bytes(version: u8, space_hash: Seq<u8>, txs: Seq<TxView>) -> Seq<u8> {
    seq![version] + space_hash + encode_entries(txs)
}

/// The transfer-authorization pre-image a signer commits to: version byte,
/// space hash, subspace key, new owner — 97 bytes.
pub open spec fn transfer_message(
    version: u8,
    space: Seq<char>,
    name: Seq<char>,
    owner: Seq<u8>,
) -> Seq<u8> {
    seq![version] + name_hash(space) + name_hash(name) + owner
}

/// Whether some transaction of `s` carries the given name.
pub open spec fn name_in(s: Seq<TxView>, name: Seq<char>) -> bool {
    exists|i: int| 0 <= i < s.len() && s[i].name == name
}

/// How many of `xs` a merge into `base` accepts before hitting a duplicate
/// name: all of them when names stay unique.
pub open spec fn merge_ok_len(base: Seq<TxView>, xs: Seq<TxView>) -> int
    decreases xs.len(),
{
    if xs.len() == 0 {
        0
    } else if name_in(base, xs[0].name) {
        0
    } else {
        1 + merge_ok_len(base.push(xs[0]), xs.drop_first())
    }
}

/// Number of registrations (empty witness) in a sequence.
pub open spec fn count_registrations(s: Seq<TxView>) -> int
    decreases s.len(),
{
    if s.len() == 0 {
        0
    } else {
        count_registrations(s.drop_last()) + if s.last().witness.len() == 0 {
            1int
        } else {
            0int
        }
    }
}

/// A record of one subspace change: a name, its new owner, and the witness
/// bytes that authorize the change (empty for a fresh registration).
pub struct Transaction {
    pub name: String,
    pub owner: [u8; 32],
    pub witness: Vec<u8>,
    /// Cached subspace key; recomputed from the name by the canonical sort.
    pub key: [u8; 32],
}

impl View for Transaction {
    type V = TxView;

    open spec fn view(&self) -> TxView {
        TxView { name: self.name@, owner: self.owner@, witness: self.witness@, key: self.key@ }
    }
}

/// The views of a sequence of transactions.
pub open spec fn views_of(s: Seq<Transaction>) -> Seq<TxView> {
    s.map_values(|t: Transaction| t@)
}

impl Transaction {
    /// A fresh transaction: empty witness, cached key = SHA-256 of the
    /// name.
    pub fn new(name: &str, owner: [u8; 32]) -> (r: Self)
        ensures
            r@ == (TxView {
                name: name@,
                owner: owner@,
                witness: Seq::<u8>::empty(),
                key: name_hash(name@),
            }),
    {
        let key = sha256(name.as_bytes());
        Transaction { name: name.to_owned(), owner, witness: Vec::new(), key }
    }
}

/// A recoverable error of batch construction.
#[derive(Debug, Clone, Copy, PartialEq, Eq, Structural)]
pub enum BuilderError {
    /// Two merged builders carry different versions.
    VersionMismatch,
    /// A name was added twice to one batch.
    DuplicateName,
}

impl BuilderError {
    /// A short description of the error.
    pub fn message(&self) -> &'static str {
        match self {
            BuilderError::VersionMismatch => "versions do not match",
            BuilderError::DuplicateName => "duplicate name",
        }
    }
}

/// Failure to produce a transfer authorization signature.
#[derive(Debug, Clone, Copy, PartialEq, Eq, Structural)]
pub struct SigningError;

/// Mathematical view of a builder.
#[verifier::ext_equal]
pub ghost struct BuilderView {
    pub version: u8,
    pub transactions: Seq<TxView>,
}

/// Collects the transactions of one batch, enforcing name uniqueness, and
/// serializes them in the canonical order.
pub struct TransactionBuilder {
    version: u8,
    pub transactions: Vec<Transaction>,
}

impl View for TransactionBuilder {
    type V = BuilderView;

    closed spec fn view(&self) -> BuilderView {
        BuilderView { version: self.version, transactions: views_of(self.transactions@) }
    }
}

impl TransactionBuilder {
    /// An empty batch at version 0.
    pub fn new() -> (r: Self)
        ensures
            r@.version == 0,
            r@.transactions == Seq::<TxView>::empty(),
    {
        let r = TransactionBuilder { version: 0, transactions: Vec::new() };
        proof {
            assert(r@.transactions =~= Seq::<TxView>::empty());
        }
        r
    }

    /// The header of the wire batch: version byte then the space hash.
    fn make_header(&self, space: &str) -> (r: Vec<u8>)
        ensures
            r@ == seq![self@.version] + sha256_of(encode_utf8(space@))@,
            r@.len() == 33,
    {
        let mut header: Vec<u8> = Vec::new();
        header.push(self.version);
        let space_hash = sha256(space.as_bytes());
        header.extend_from_slice(space_hash.as_slice());
        header
    }

    /// Appends a transaction, rejecting a name already in the batch. With a
    /// signer, the transfer-authorization message (version, space hash,
    /// subspace key, new owner) is signed and the tag byte followed by the
    /// deterministic 64-byte signature becomes the transaction's witness,
    /// replacing whatever the witness held.
    pub fn add(&mut self, entry: Transaction, signer: Option<(&str, SigningKey)>) -> (r: Result<
        (),
        BuilderError,
    >)
        ensures
            name_in(old(self)@.transactions, entry@.name) ==> r == Err::<(), BuilderError>(
                BuilderError::DuplicateName,
            ) && *final(self) == *old(self),
            !name_in(old(self)@.transactions, entry@.name) ==> {
                &&& r is Ok
                &&& final(self)@.version == old(self)@.version
                &&& (signer is None ==> final(self)@.transactions == old(
                    self,
                )@.transactions.push(entry@))
                &&& (signer matches Some((space, signing_key)) ==> final(self)@.transactions == old(
                    self,
                )@.transactions.push(
                    TxView {
                        witness: seq![0u8] + sig_of(
                            key_scalar(signing_key),
                            transfer_message(
                                old(self)@.version,
                                space@,
                                entry@.name,
                                entry@.owner,
                            ),
                        ),
                        ..entry@
                    },
                ))
            },
    {
        let n = self.transactions.len();
        let mut i: usize = 0;
        while i < n
            invariant
                n == self.transactions@.len(),
                0 <= i <= n,
                forall|j: int| 0 <= j < i ==> views_of(self.transactions@)[j].name != entry@.name,
            decreases n - i,
        {
            if self.transactions[i].name == entry.name {
                proof {
                    assert(name_in(self@.transactions, entry@.name)) by {
                        assert(views_of(self.transactions@)[i as int].name == entry@.name);
                    }
                }
                return Err(BuilderError::DuplicateName);
            }
            i += 1;
        }
        let ghost incoming = entry@;
        let entry = match signer {
            Some((space, signing_key)) => {
                let mut entry = entry;
                let mut msg = self.make_header(space);
                let subspace_hash = sha256(entry.name.as_str().as_bytes());
                msg.extend_from_slice(subspace_hash.as_slice());
                msg.extend_from_slice(entry.owner.as_slice());
                proof {
                    assert(msg@ =~= transfer_message(
                        self@.version,
                        space@,
                        incoming.name,
                        incoming.owner,
                    ));
                }
                let signature = sign_message(&signing_key, msg.as_slice());
                let mut witness: Vec<u8> = Vec::new();
                witness.push(0x00);
                witness.extend_from_slice(signature.as_slice());
                proof {
                    assert(witness@ == seq![0u8] + signature@);
                }
                entry.witness = witness;
                proof {
                    assert(entry@ =~~= (TxView {
                        witness: seq![0u8] + sig_of(
                            key_scalar(signing_key),
                            transfer_message(
                                old(self)@.version,
                                space@,
                                incoming.name,
                                incoming.owner,
                            ),
                        ),
                        ..incoming
                    }));
                }
                entry
            },
            None => entry,
        };
        self.transactions.push(entry);
        proof {
            assert(views_of(self.transactions@) =~= views_of(old(self).transactions@).push(
                entry@,
            ));
        }
        Ok(())
    }

    /// Recomputes every cached subspace key and sorts the batch into the
    /// canonical order.
    fn sort(&mut self)
        ensures
            final(self)@.version == old(self)@.version,
            final(self)@.transactions == sort_txs(with_keys(old(self)@.transactions)),
    {
        let ghost orig: Seq<TxView> = with_keys(self@.transactions);
        let n = self.transactions.len();
        let mut rekeyed: Vec<Transaction> = Vec::new();
        let mut i: usize = 0;
        while i < n
            invariant
                n == self.transactions@.len(),
                0 <= i <= n,
                orig == with_keys(views_of(self.transactions@)),
                views_of(rekeyed@) == orig.take(i as int),
            decreases n - i,
        {
            let t = &self.transactions[i];
            let key = sha256(t.name.as_str().as_bytes());
            let name = t.name.clone();
            let witness = vstd::slice::slice_to_vec(t.witness.as_slice());
            let ghost prev = views_of(rekeyed@);
            let ghost source = views_of(self.transactions@)[i as int];
            proof {
                assert(orig.len() == n);
                assert(prev.len() == orig.take(i as int).len());
            }
            rekeyed.push(Transaction { name, owner: t.owner, witness, key });
            proof {
                let cur = views_of(rekeyed@);
                assert(cur[i as int] == rekeyed@[i as int]@);
                assert(cur[i as int] =~~= with_key(source));
                assert(orig[i as int] == with_key(source));
                assert(cur =~~= orig.take((i + 1) as int)) by {
                    assert(forall|k: int| 0 <= k < i ==> cur[k] == #[trigger] prev[k]);
                }
            }
            i += 1;
        }
        proof {
            assert(orig.take(n as int) =~= orig);
        }
        let mut sorted: Vec<Transaction> = Vec::new();
        while rekeyed.len() > 0
            invariant
                rekeyed@.len() <= orig.len(),
                views_of(rekeyed@) == orig.take(rekeyed@.len() as int),
                views_of(sorted@) == sort_txs(orig.skip(rekeyed@.len() as int)),
            decreases rekeyed@.len(),
        {
            let ghost m = rekeyed@.len() - 1;
            let ghost before = views_of(rekeyed@);
            let t = rekeyed.pop().unwrap();
            proof {
                assert(t@ == before[m]);
                assert(before[m] == orig[m]);
                assert(views_of(rekeyed@) =~= before.drop_last());
                assert(before.drop_last() =~= orig.take(m));
            }
            insert_canonical(&mut sorted, t);
            proof {
                let u = orig.skip(m);
                assert(u.len() > 0 && u[0] == orig[m]);
                assert(u.drop_first() =~= orig.skip(m + 1));
                assert(views_of(sorted@) == sort_txs(u));
            }
        }
        proof {
            assert(orig.skip(0) =~= orig);
        }
        self.transactions = sorted;
    }
}

/// Merging and serialization.
impl TransactionBuilder {
    /// Copies of the transactions, view for view.
    fn clone_transactions(txs: &Vec<Transaction>) -> (r: Vec<Transaction>)
        ensures
            views_of(r@) == views_of(txs@),
    {
        let n = txs.len();
        let mut copies: Vec<Transaction> = Vec::new();
        let mut i: usize = 0;
        while i < n
            invariant
                n == txs@.len(),
                0 <= i <= n,
                views_of(copies@) == views_of(txs@).take(i as int),
            decreases n - i,
        {
            let t = &txs[i];
            let name = t.name.clone();
            let witness = vstd::slice::slice_to_vec(t.witness.as_slice());
            let ghost prev = views_of(copies@);
            proof {
                assert(prev.len() == views_of(txs@).take(i as int).len());
            }
            copies.push(Transaction { name, owner: t.owner, witness, key: t.key });
            proof {
                let cur = views_of(copies@);
                assert(cur[i as int] == copies@[i as int]@);
                assert(cur[i as int] =~~= views_of(txs@)[i as int]);
                assert(cur =~~= views_of(txs@).take((i + 1) as int)) by {
                    assert(forall|k: int| 0 <= k < i ==> cur[k] == #[trigger] prev[k]);
                }
            }
            i += 1;
        }
        proof {
            assert(views_of(txs@).take(n as int) =~= views_of(txs@));
        }
        copies
    }

    /// Folds another builder of the same version into this one. A version
    /// mismatch or a duplicate name rejects the merge and leaves the batch
    /// untouched; on success every transaction of `other` is appended in
    /// order.
    pub fn merge(&mut self, other: Self) -> (r: Result<(), BuilderError>)
        ensures
            r is Err ==> *final(self) == *old(self),
            (r == Err::<(), BuilderError>(BuilderError::VersionMismatch)) == (old(self)@.version
                != other@.version),
            old(self)@.version == other@.version ==> {
                &&& (r is Ok <==> merge_ok_len(old(self)@.transactions, other@.transactions)
                    == other@.transactions.len())
                &&& (r is Ok ==> final(self)@.version == old(self)@.version
                    && final(self)@.transactions == old(self)@.transactions
                    + other@.transactions)
                &&& (r is Err ==> r == Err::<(), BuilderError>(BuilderError::DuplicateName))
            },
    {
        if self.version != other.version {
            return Err(BuilderError::VersionMismatch);
        }
        proof {
            assert(old(self)@.version == other@.version);
        }
        let ghost base0 = self@.transactions;
        let ghost xs = other@.transactions;
        proof {
            assert(base0 == old(self)@.transactions);
        }
        let mut work = TransactionBuilder {
            version: self.version,
            transactions: Self::clone_transactions(&self.transactions),
        };
        let ghost mut j: int = 0;
        let mut remaining = other;
        proof {
            assert(work@.transactions == base0);
            assert(xs.skip(0) =~= xs);
            assert(base0 + xs.take(0) =~= base0);
        }
        while remaining.transactions.len() > 0
            invariant
                xs == other@.transactions,
                base0 == old(self)@.transactions,
                old(self)@.version == other@.version,
                *self == *old(self),
                0 <= j <= xs.len(),
                views_of(remaining.transactions@) == xs.skip(j),
                work@.version == old(self)@.version,
                work@.transactions == base0 + xs.take(j),
                merge_ok_len(base0, xs) == j + merge_ok_len(work@.transactions, xs.skip(j)),
            decreases remaining.transactions@.len(),
        {
            let ghost base = work@.transactions;
            let entry = remaining.transactions.remove(0);
            proof {
                assert(entry@ == xs.skip(j)[0]);
                assert(views_of(remaining.transactions@) =~= xs.skip(j).drop_first());
                assert(xs.skip(j).drop_first() =~= xs.skip(j + 1));
            }
            match work.add(entry, None) {
                Ok(_) => {
                    proof {
                        assert(work@.transactions =~= base0 + xs.take(j + 1)) by {
                            assert(work@.transactions == base.push(xs.skip(j)[0]));
                            assert(xs.skip(j)[0] == xs[j]);
                        }
                        j = j + 1;
                    }
                },
                Err(e) => {
                    proof {
                        assert(name_in(base, xs.skip(j)[0].name));
                        assert(merge_ok_len(base, xs.skip(j)) == 0);
                        assert(merge_ok_len(base0, xs) == j);
                        assert(xs.skip(j).len() > 0);
                        assert(j < xs.len());
                        assert(e == BuilderError::DuplicateName);
                    }
                    return Err(e);
                },
            }
        }
        proof {
            assert(xs.skip(j).len() == 0);
            assert(j == xs.len());
            assert(merge_ok_len(work@.transactions, xs.skip(j)) == 0);
            assert(xs.take(j) =~= xs);
        }
        self.transactions = work.transactions;
        proof {
            assert(self@.transactions == base0 + xs);
            assert(self@.version == old(self)@.version);
        }
        Ok(())
    }

    /// Appends one wire frame: length, subspace key, owner, witness. The
    /// cached key must be current — SHA-256 of the name — which the
    /// canonical sort (re)establishes before anything is written.
    fn write_tx(&self, buffer: &mut Vec<u8>, tx: &Transaction)
        requires
            tx@.witness.len() <= 65471,
            tx@.key == name_hash(tx@.name),
        ensures
            final(buffer)@ == old(buffer)@ + encode_entry(tx@),
    {
        let frame_len: u16 = (64 + tx.witness.len()) as u16;
        let len_bytes = u16_to_le_bytes(frame_len);
        buffer.extend_from_slice(len_bytes.as_slice());
        buffer.extend_from_slice(tx.key.as_slice());
        buffer.extend_from_slice(tx.owner.as_slice());
        buffer.extend_from_slice(tx.witness.as_slice());
        proof {
            assert(buffer@ =~= old(buffer)@ + encode_entry(tx@));
        }
    }

    /// Serializes the batch for a space: header, then every transaction in
    /// the canonical order with freshly computed subspace keys. Witnesses
    /// must leave each frame length within the wire format's `u16`.
    pub fn build(self, space: &str) -> (r: Result<Vec<u8>, BuilderError>)
        requires
            forall|i: int|
                0 <= i < self@.transactions.len() ==> #[trigger] self@.transactions[i].witness.len()
                    <= 65471,
        ensures
            r is Ok,
            r matches Ok(bytes) ==> bytes@ == wire_bytes(
                self@.version,
                name_hash(space@),
                sort_txs(with_keys(self@.transactions)),
            ),
    {
        let ghost original = self@;
        let mut this = self;
        let mut buffer: Vec<u8> = Vec::new();
        buffer.push(this.version);
        let space_hash = sha256(space.as_bytes());
        buffer.extend_from_slice(space_hash.as_slice());
        proof {
            assert(buffer@ =~= seq![original.version] + name_hash(space@));
        }
        this.sort();
        let ghost sorted_views = this@.transactions;
        proof {
            lemma_sort_txs_multiset(with_keys(original.transactions));
            assert forall|k: int|
                0 <= k < sorted_views.len() implies (#[trigger] sorted_views[k].witness.len()
                <= 65471 && sorted_views[k].key == name_hash(sorted_views[k].name)) by {
            broadcast use vstd::seq_lib::group_to_multiset_ensures;

                let w = with_keys(original.transactions);
                assert(sorted_views.contains(sorted_views[k]));
                assert(sorted_views.to_multiset().contains(sorted_views[k]));
                assert(w.to_multiset().contains(sorted_views[k]));
                assert(w.contains(sorted_views[k]));
                let m = choose|m: int| 0 <= m < w.len() && w[m] == sorted_views[k];
                assert(w[m] == with_key(original.transactions[m]));
                assert(w[m].witness == original.transactions[m].witness);
            }
        }
        let n = this.transactions.len();
        let mut i: usize = 0;
        while i < n
            invariant
                n == this.transactions@.len(),
                0 <= i <= n,
                views_of(this.transactions@) == sorted_views,
                forall|k: int|
                    0 <= k < sorted_views.len() ==> (#[trigger] sorted_views[k].witness.len()
                        <= 65471 && sorted_views[k].key == name_hash(sorted_views[k].name)),
                buffer@ == seq![original.version] + name_hash(space@) + encode_entries(
                    sorted_views.take(i as int),
                ),
            decreases n - i,
        {
            let tx = &this.transactions[i];
            proof {
                assert(tx@ == sorted_views[i as int]);
                assert(sorted_views[i as int].witness.len() <= 65471);
                assert(sorted_views[i as int].key == name_hash(sorted_views[i as int].name));
            }
            this.write_tx(&mut buffer, tx);
            proof {
                lemma_encode_entries_snoc(sorted_views, i as int);
            }
            i += 1;
        }
        proof {
            assert(sorted_views.take(n as int) =~= sorted_views);
            assert(buffer@ =~= wire_bytes(original.version, name_hash(space@), sorted_views));
        }
        Ok(buffer)
    }
}

/// Counts the registrations and updates of a batch: how many transactions
/// carry an empty witness, and how many a non-empty one.
pub fn builder_stats(builder: &TransactionBuilder) -> (r: (usize, usize))
    ensures
        r.0 == count_registrations(builder@.transactions),
        r.0 + r.1 == builder@.transactions.len(),
{
    let ghost views = builder@.transactions;
    let mut registrations: usize = 0;
    let mut updates: usize = 0;
    let n = builder.transactions.len();
    let mut i: usize = 0;
    while i < n
        invariant
            n == builder.transactions@.len(),
            views == views_of(builder.transactions@),
            0 <= i <= n,
            registrations == count_registrations(views.take(i as int)),
            registrations + updates == i,
        decreases n - i,
    {
        if builder.transactions[i].witness.is_empty() {
            registrations += 1;
        } else {
            updates += 1;
        }
        proof {
            assert(views.take((i + 1) as int).drop_last() =~= views.take(i as int));
            assert(views.take((i + 1) as int).last() == views[i as int]);
        }
        i += 1;
    }
    proof {
        assert(views.take(n as int) =~= views);
    }
    (registrations, updates)
}

/// Appending one transaction extends the encoding by one frame.
proof fn lemma_encode_entries_snoc(s: Seq<TxView>, i: int)
    requires
        0 <= i < s.len(),
    ensures
        encode_entries(s.take(i + 1)) == encode_entries(s.take(i)) + encode_entry(s[i]),
    decreases i,
{
    if i == 0 {
        assert(s.take(1).drop_first() =~= s.take(0));
        assert(encode_entries(s.take(1)) =~= encode_entry(s[0]) + encode_entries(s.take(0)));
        assert(encode_entries(s.take(0)).len() == 0);
        assert(encode_entries(s.take(1)) =~= encode_entries(s.take(0)) + encode_entry(s[0]));
    } else {
        let d = s.drop_first();
        lemma_encode_entries_snoc(d, i - 1);
        assert(s.take(i + 1).drop_first() =~= d.take(i));
        assert(s.take(i).drop_first() =~= d.take(i - 1));
        assert(s.take(i + 1)[0] == s[0]);
        assert(s.take(i)[0] == s[0]);
        assert(encode_entries(s.take(i + 1)) == encode_entry(s[0]) + encode_entries(d.take(i)));
        assert(encode_entries(s.take(i)) == encode_entry(s[0]) + encode_entries(d.take(i - 1)));
        assert(d[i - 1] == s[i]);
        assert(encode_entry(s[0]) + (encode_entries(d.take(i - 1)) + encode_entry(d[i - 1])) =~= (
        encode_entry(s[0]) + encode_entries(d.take(i - 1))) + encode_entry(d[i - 1]));
    }
}

/// The multiset of transactions is preserved by `insert_sorted`.
pub proof fn lemma_insert_sorted_multiset(x: TxView, s: Seq<TxView>)
    ensures
        insert_sorted(x, s).to_multiset() == s.to_multiset().insert(x),
    decreases s.len(),
{
    broadcast use vstd::seq_lib::group_to_multiset_ensures;
    broadcast use vstd::multiset::group_multiset_axioms;

    if s.len() > 0 && !tx_leq(x, s[0]) {
        lemma_insert_sorted_multiset(x, s.drop_first());
        assert(seq![s[0]] + insert_sorted(x, s.drop_first()) =~= insert_sorted(
            x,
            s.drop_first(),
        ).insert(0, s[0]));
        vstd::seq_lib::lemma_multiset_commutative(seq![s[0]], insert_sorted(x, s.drop_first()));
        assert(seq![s[0]] + s.drop_first() =~= s);
        vstd::seq_lib::lemma_multiset_commutative(seq![s[0]], s.drop_first());
        assert(insert_sorted(x, s).to_multiset() =~= s.to_multiset().insert(x));
    } else {
        assert(seq![x] + s =~= s.insert(0, x));
        vstd::seq_lib::lemma_multiset_commutative(seq![x], s);
        assert(insert_sorted(x, s).to_multiset() =~= s.to_multiset().insert(x));
    }
}

/// The canonical sort permutes its input: the multiset is unchanged.
pub proof fn lemma_sort_txs_multiset(s: Seq<TxView>)
    ensures
        sort_txs(s).to_multiset() == s.to_multiset(),
    decreases s.len(),
{
    broadcast use vstd::seq_lib::group_to_multiset_ensures;

    if s.len() > 0 {
        lemma_sort_txs_multiset(s.drop_first());
        lemma_insert_sorted_multiset(s[0], sort_txs(s.drop_first()));
        assert(s =~= seq![s[0]] + s.drop_first());
        vstd::seq_lib::lemma_multiset_commutative(seq![s[0]], s.drop_first());
        assert(seq![s[0]].to_multiset() =~= Multiset::<TxView>::empty().insert(s[0]));
        assert(sort_txs(s).to_multiset() =~= s.to_multiset()) by {
            broadcast use vstd::multiset::group_multiset_axioms;
        }
    }
}

/// Lexicographic comparison restricted to an equal prefix: the order is
/// decided by what follows the prefix.
proof fn lemma_lex_leq_skip(a: Seq<u8>, b: Seq<u8>, i: int)
    requires
        0 <= i <= a.len(),
        i <= b.len(),
        a.subrange(0, i) == b.subrange(0, i),
    ensures
        lex_leq(a, b) == lex_leq(a.skip(i), b.skip(i)),
    decreases i,
{
    if i == 0 {
        assert(a.skip(0) =~= a);
        assert(b.skip(0) =~= b);
    } else {
        assert(a[0] == a.subrange(0, i)[0]);
        assert(b[0] == b.subrange(0, i)[0]);
        assert(a.drop_first().subrange(0, i - 1) =~= b.drop_first().subrange(0, i - 1)) by {
            assert(forall|k: int|
                0 <= k < i - 1 ==> #[trigger] a.drop_first().subrange(0, i - 1)[k] == a.subrange(
                    0,
                    i,
                )[k + 1]);
            assert(forall|k: int|
                0 <= k < i - 1 ==> #[trigger] b.drop_first().subrange(0, i - 1)[k] == b.subrange(
                    0,
                    i,
                )[k + 1]);
        }
        lemma_lex_leq_skip(a.drop_first(), b.drop_first(), i - 1);
        assert(a.drop_first().skip(i - 1) =~= a.skip(i));
        assert(b.drop_first().skip(i - 1) =~= b.skip(i));
    }
}

/// `lex_leq` is total.
proof fn lemma_lex_leq_total(a: Seq<u8>, b: Seq<u8>)
    ensures
        lex_leq(a, b) || lex_leq(b, a),
    decreases a.len(),
{
    if a.len() > 0 && b.len() > 0 && a[0] == b[0] {
        lemma_lex_leq_total(a.drop_first(), b.drop_first());
    }
}

/// `lex_leq` is transitive.
proof fn lemma_lex_leq_trans(a: Seq<u8>, b: Seq<u8>, c: Seq<u8>)
    requires
        lex_leq(a, b),
        lex_leq(b, c),
    ensures
        lex_leq(a, c),
    decreases a.len(),
{
    if a.len() > 0 && b.len() > 0 && c.len() > 0 && a[0] == b[0] && b[0] == c[0] {
        lemma_lex_leq_trans(a.drop_first(), b.drop_first(), c.drop_first());
    }
}

/// `lex_leq` is antisymmetric.
pub proof fn lemma_lex_leq_antisym(a: Seq<u8>, b: Seq<u8>)
    requires
        lex_leq(a, b),
        lex_leq(b, a),
    ensures
        a == b,
    decreases a.len(),
{
    if a.len() == 0 {
        assert(a =~= b);
    } else {
        assert(b.len() > 0);
        assert(a[0] == b[0]);
        lemma_lex_leq_antisym(a.drop_first(), b.drop_first());
        assert forall|k: int| 0 <= k < a.len() implies a[k] == b[k] by {
            if k > 0 {
                assert(a.drop_first().len() == b.drop_first().len());
                assert(a[k] == a.drop_first()[k - 1]);
                assert(b[k] == b.drop_first()[k - 1]);
            }
        }
        assert(a =~= b);
    }
}

/// The canonical transaction order is total.
pub proof fn lemma_tx_leq_total(a: TxView, b: TxView)
    ensures
        tx_leq(a, b) || tx_leq(b, a),
{
    lemma_lex_leq_total(a.key, b.key);
}

/// The canonical transaction order is transitive.
pub proof fn lemma_tx_leq_trans(a: TxView, b: TxView, c: TxView)
    requires
        tx_leq(a, b),
        tx_leq(b, c),
    ensures
        tx_leq(a, c),
{
    if tx_group(a) == tx_group(b) && tx_group(b) == tx_group(c) {
        lemma_lex_leq_trans(a.key, b.key, c.key);
    }
}

/// Lexicographic comparison of two cached keys.
fn key_lex_leq(a: &[u8; 32], b: &[u8; 32]) -> (r: bool)
    ensures
        r == lex_leq(a@, b@),
{
    let mut i: usize = 0;
    while i < 32
        invariant
            0 <= i <= 32,
            a@.subrange(0, i as int) == b@.subrange(0, i as int),
        decreases 32 - i,
    {
        let x = a[i];
        let y = b[i];
        if x != y {
            proof {
                lemma_lex_leq_skip(a@, b@, i as int);
                assert(a@.skip(i as int)[0] == a@[i as int]);
                assert(b@.skip(i as int)[0] == b@[i as int]);
            }
            return x < y;
        }
        proof {
            assert(a@.subrange(0, (i + 1) as int) =~= b@.subrange(0, (i + 1) as int));
        }
        i += 1;
    }
    proof {
        lemma_lex_leq_skip(a@, b@, 32);
        assert(a@.skip(32).len() == 0);
    }
    true
}

/// Executable form of the canonical order `tx_leq`.
fn tx_canonical_leq(a: &Transaction, b: &Transaction) -> (r: bool)
    ensures
        r == tx_leq(a@, b@),
{
    let a_registration = a.witness.is_empty();
    let b_registration = b.witness.is_empty();
    if a_registration == b_registration {
        key_lex_leq(&a.key, &b.key)
    } else {
        !a_registration
    }
}

/// Where `insert_sorted` puts its element: in front of the first position
/// whose element it precedes (or ties with).
proof fn lemma_insert_sorted_position(x: TxView, s: Seq<TxView>, j: int)
    requires
        0 <= j <= s.len(),
        forall|k: int| 0 <= k < j ==> !tx_leq(x, s[k]),
        j < s.len() ==> tx_leq(x, s[j]),
    ensures
        insert_sorted(x, s) == s.take(j) + seq![x] + s.skip(j),
    decreases j,
{
    if j == 0 {
        assert(s.take(0) + seq![x] + s.skip(0) =~= seq![x] + s);
    } else {
        let d = s.drop_first();
        assert(forall|k: int| 0 <= k < j - 1 ==> d[k] == s[k + 1] && !tx_leq(x, d[k]));
        lemma_insert_sorted_position(x, d, j - 1);
        assert(seq![s[0]] + (d.take(j - 1) + seq![x] + d.skip(j - 1)) =~= s.take(j) + seq![x]
            + s.skip(j));
    }
}

/// Inserts a transaction into a canonically sorted vector at its stable
/// position.
fn insert_canonical(v: &mut Vec<Transaction>, t: Transaction)
    ensures
        views_of(final(v)@) == insert_sorted(t@, views_of(old(v)@)),
{
    let n = v.len();
    let mut j: usize = 0;
    while j < n && !tx_canonical_leq(&t, &v[j])
        invariant
            n == v@.len(),
            0 <= j <= n,
            forall|k: int| 0 <= k < j ==> !tx_leq(t@, views_of(v@)[k]),
        decreases n - j,
    {
        j += 1;
    }
    proof {
        lemma_insert_sorted_position(t@, views_of(v@), j as int);
    }
    let ghost before = views_of(v@);
    v.insert(j, t);
    proof {
        assert(views_of(v@) =~= before.take(j as int) + seq![t@] + before.skip(j as int));
    }
}

} // verus!
