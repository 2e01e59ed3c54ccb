//! Laws of the batch pipeline, proved once and for all: the canonical sort
//! yields a sorted batch, sorting is idempotent, the serialized batch does
//! not depend on insertion order, and the wire reader parses a built batch
//! back into exactly its transactions.
use vstd::prelude::*;

verus! {

use crate::EntryView;
use crate::parse_entries;
use crate::builder::TxView;
use crate::builder::encode_entries;
use crate::builder::encode_entry;
use crate::builder::insert_sorted;
use crate::builder::lemma_sort_txs_multiset;
use crate::builder::lemma_tx_leq_total;
use crate::builder::lemma_tx_leq_trans;
use crate::builder::lemma_lex_leq_antisym;
use crate::builder::sort_txs;
use crate::builder::tx_group;
use crate::builder::tx_leq;
use crate::builder::wire_bytes;
use crate::builder::name_hash;
use crate::builder::with_key;
use crate::builder::with_keys;

/// A batch in the canonical order: updates before registrations, ascending
/// subspace key within each group.
pub open spec fn canonically_sorted(s: Seq<TxView>) -> bool {
    forall|i: int, j: int| 0 <= i < j < s.len() ==> #[trigger] tx_leq(s[i], s[j])
}

/// Pairwise distinct subspace keys.
pub open spec fn distinct_keys(s: Seq<TxView>) -> bool {
    forall|i: int, j: int|
        0 <= i < s.len() && 0 <= j < s.len() && i != j ==> #[trigger] s[i].key != #[trigger] s[j].key
}

/// Among the transactions of `s`, the subspace key determines the
/// transaction.
pub open spec fn key_injective(s: Seq<TxView>) -> bool {
    forall|x: TxView, y: TxView|
        #[trigger] s.contains(x) && #[trigger] s.contains(y) && x.key == y.key ==> x == y
}

/// The wire entry a transaction serializes to.
pub open spec fn entry_of_tx(t: TxView) -> EntryView {
    EntryView { subspace_hash: t.key, owner: t.owner, witness: t.witness }
}

proof fn lemma_tx_leq_reflexive(x: TxView)
    ensures
        tx_leq(x, x),
{
    lemma_tx_leq_total(x, x);
}

proof fn lemma_sorted_drop_first(s: Seq<TxView>)
    requires
        canonically_sorted(s),
        s.len() > 0,
    ensures
        canonically_sorted(s.drop_first()),
{
    assert forall|i: int, j: int|
        0 <= i < j < s.drop_first().len() implies #[trigger] tx_leq(
        s.drop_first()[i],
        s.drop_first()[j],
    ) by {
        assert(s.drop_first()[i] == s[i + 1]);
        assert(s.drop_first()[j] == s[j + 1]);
        assert(tx_leq(s[i + 1], s[j + 1]));
    }
}

/// Inserting into a sorted sequence keeps it sorted.
proof fn lemma_insert_sorted_keeps_sorted(x: TxView, s: Seq<TxView>)
    requires
        canonically_sorted(s),
    ensures
        canonically_sorted(insert_sorted(x, s)),
    decreases s.len(),
{
    broadcast use vstd::seq_lib::group_to_multiset_ensures;

    if s.len() > 0 && !tx_leq(x, s[0]) {
        lemma_tx_leq_total(x, s[0]);
        assert(tx_leq(s[0], x));
        lemma_sorted_drop_first(s);
        lemma_insert_sorted_keeps_sorted(x, s.drop_first());
        let inner = insert_sorted(x, s.drop_first());
        crate::builder::lemma_insert_sorted_multiset(x, s.drop_first());
        let r = insert_sorted(x, s);
        assert(r == seq![s[0]] + inner);
        assert forall|i: int, j: int| 0 <= i < j < r.len() implies #[trigger] tx_leq(
            r[i],
            r[j],
        ) by {
            if i == 0 {
                assert(r[j] == inner[j - 1]);
                assert(inner.contains(inner[j - 1]));
                assert(inner.to_multiset().contains(inner[j - 1]));
                if inner[j - 1] == x {
                    assert(tx_leq(s[0], r[j]));
                } else {
                    assert(s.drop_first().to_multiset().contains(inner[j - 1]));
                    assert(s.drop_first().contains(inner[j - 1]));
                    let m = choose|m: int|
                        0 <= m < s.drop_first().len() && s.drop_first()[m] == inner[j - 1];
                    assert(s.drop_first()[m] == s[m + 1]);
                    assert(tx_leq(s[0], s[m + 1]));
                }
            } else {
                assert(r[i] == inner[i - 1] && r[j] == inner[j - 1]);
                assert(tx_leq(inner[i - 1], inner[j - 1]));
            }
        }
    } else {
        let r = insert_sorted(x, s);
        assert(r == seq![x] + s);
        assert forall|i: int, j: int| 0 <= i < j < r.len() implies #[trigger] tx_leq(
            r[i],
            r[j],
        ) by {
            if i == 0 {
                if s.len() > 0 {
                    assert(tx_leq(x, s[0]));
                    assert(r[j] == s[j - 1]);
                    if j == 1 {
                    } else {
                        assert(tx_leq(s[0], s[j - 1]));
                        lemma_tx_leq_trans(x, s[0], s[j - 1]);
                    }
                }
            } else {
                assert(r[i] == s[i - 1] && r[j] == s[j - 1]);
                assert(tx_leq(s[i - 1], s[j - 1]));
            }
        }
    }
}

/// The canonical sort yields a canonically sorted sequence. Together with
/// the builder's contract this says: the body of a built batch is in the
/// order that the guest requires.
pub proof fn lemma_sort_txs_sorted(s: Seq<TxView>)
    ensures
        canonically_sorted(sort_txs(s)),
    decreases s.len(),
{
    if s.len() > 0 {
        lemma_sort_txs_sorted(s.drop_first());
        lemma_insert_sorted_keeps_sorted(s[0], sort_txs(s.drop_first()));
    }
}

/// The canonical sort is idempotent: sorting an already sorted batch is a
/// no-op.
pub proof fn lemma_sort_txs_idempotent(s: Seq<TxView>)
    requires
        canonically_sorted(s),
    ensures
        sort_txs(s) == s,
    decreases s.len(),
{
    if s.len() > 0 {
        lemma_sorted_drop_first(s);
        lemma_sort_txs_idempotent(s.drop_first());
        let d = s.drop_first();
        if d.len() > 0 {
            assert(d[0] == s[1]);
            assert(tx_leq(s[0], s[1]));
            assert(insert_sorted(s[0], d) == seq![s[0]] + d);
        }
        assert(seq![s[0]] + s.drop_first() =~= s);
    }
}

/// Sorting twice is the same as sorting once.
pub proof fn lemma_sort_txs_twice(s: Seq<TxView>)
    ensures
        sort_txs(sort_txs(s)) == sort_txs(s),
{
    lemma_sort_txs_sorted(s);
    lemma_sort_txs_idempotent(sort_txs(s));
}

proof fn lemma_sorted_first_minimal(s: Seq<TxView>, x: TxView)
    requires
        canonically_sorted(s),
        s.len() > 0,
        s.contains(x),
    ensures
        tx_leq(s[0], x),
{
    let i = choose|i: int| 0 <= i < s.len() && s[i] == x;
    if i == 0 {
        lemma_tx_leq_reflexive(x);
    } else {
        assert(tx_leq(s[0], s[i]));
    }
}

proof fn lemma_key_injective_drop_first(s: Seq<TxView>)
    requires
        key_injective(s),
        s.len() > 0,
    ensures
        key_injective(s.drop_first()),
{
    assert forall|x: TxView, y: TxView|
        #[trigger] s.drop_first().contains(x) && #[trigger] s.drop_first().contains(y) && x.key
            == y.key implies x == y by {
        let i = choose|i: int| 0 <= i < s.drop_first().len() && s.drop_first()[i] == x;
        let j = choose|j: int| 0 <= j < s.drop_first().len() && s.drop_first()[j] == y;
        assert(s[i + 1] == x);
        assert(s[j + 1] == y);
        assert(s.contains(x) && s.contains(y));
    }
}

/// Two canonically sorted sequences with the same transactions, whose
/// subspace keys determine their transactions, are equal.
proof fn lemma_sorted_unique(a: Seq<TxView>, b: Seq<TxView>)
    requires
        canonically_sorted(a),
        canonically_sorted(b),
        a.to_multiset() == b.to_multiset(),
        key_injective(a),
    ensures
        a == b,
    decreases a.len(),
{
    broadcast use vstd::seq_lib::group_to_multiset_ensures;
    broadcast use vstd::multiset::group_multiset_axioms;

    if a.len() == 0 {
        assert(a.to_multiset().len() == 0);
        assert(b.len() == b.to_multiset().len());
        assert(a =~= b);
    } else {
        assert(a.to_multiset().len() == a.len());
        assert(b.to_multiset().len() == b.len());
        assert(b.len() > 0);
        assert(b.contains(b[0]));
        assert(b.to_multiset().contains(b[0]));
        assert(a.to_multiset().contains(b[0]));
        assert(a.contains(b[0]));
        assert(a.contains(a[0]));
        assert(a.to_multiset().contains(a[0]));
        assert(b.to_multiset().contains(a[0]));
        assert(b.contains(a[0]));
        lemma_sorted_first_minimal(a, b[0]);
        lemma_sorted_first_minimal(b, a[0]);
        assert(tx_leq(a[0], b[0]) && tx_leq(b[0], a[0]));
        assert(tx_group(a[0]) == tx_group(b[0]));
        lemma_lex_leq_antisym(a[0].key, b[0].key);
        assert(a[0].key == b[0].key);
        assert(a[0] == b[0]);
        let ad = a.drop_first();
        let bd = b.drop_first();
        assert(a.remove(0) =~= ad);
        assert(b.remove(0) =~= bd);
        assert(a.remove(0).to_multiset() =~= a.to_multiset().remove(a[0]));
        assert(b.remove(0).to_multiset() =~= b.to_multiset().remove(b[0]));
        assert(ad.to_multiset() == bd.to_multiset());
        lemma_sorted_drop_first(a);
        lemma_sorted_drop_first(b);
        lemma_key_injective_drop_first(a);
        lemma_sorted_unique(ad, bd);
        assert forall|k: int| 0 <= k < a.len() implies a[k] == b[k] by {
            if k > 0 {
                assert(a[k] == ad[k - 1]);
                assert(b[k] == bd[k - 1]);
            }
        }
        assert(a =~= b);
    }
}

/// Two batches holding the same transactions, in whatever order they were
/// added, serialize to identical wire bytes — provided no two distinct
/// transactions share a subspace key (SHA-256 collisions aside, distinct
/// names have distinct keys).
pub proof fn lemma_build_order_independent(
    version: u8,
    space_hash: Seq<u8>,
    txs1: Seq<TxView>,
    txs2: Seq<TxView>,
)
    requires
        with_keys(txs1).to_multiset() == with_keys(txs2).to_multiset(),
        distinct_keys(with_keys(txs1)),
    ensures
        wire_bytes(version, space_hash, sort_txs(with_keys(txs1))) == wire_bytes(
            version,
            space_hash,
            sort_txs(with_keys(txs2)),
        ),
{
    broadcast use vstd::seq_lib::group_to_multiset_ensures;

    let s1 = with_keys(txs1);
    let s2 = with_keys(txs2);
    lemma_sort_txs_sorted(s1);
    lemma_sort_txs_sorted(s2);
    lemma_sort_txs_multiset(s1);
    lemma_sort_txs_multiset(s2);
    assert(key_injective(sort_txs(s1))) by {
        assert forall|x: TxView, y: TxView|
            #[trigger] sort_txs(s1).contains(x) && #[trigger] sort_txs(s1).contains(y) && x.key
                == y.key implies x == y by {
            assert(sort_txs(s1).to_multiset().contains(x));
            assert(sort_txs(s1).to_multiset().contains(y));
            assert(s1.to_multiset().contains(x));
            assert(s1.to_multiset().contains(y));
            assert(s1.contains(x) && s1.contains(y));
            let i = choose|i: int| 0 <= i < s1.len() && s1[i] == x;
            let j = choose|j: int| 0 <= j < s1.len() && s1[j] == y;
            if i != j {
                assert(s1[i].key != s1[j].key);
            }
        }
    }
    lemma_sorted_unique(sort_txs(s1), sort_txs(s2));
}

proof fn lemma_parse_entries_of_encoding(txs: Seq<TxView>)
    requires
        forall|i: int|
            0 <= i < txs.len() ==> (#[trigger] txs[i].key.len() == 32 && txs[i].owner.len() == 32
                && txs[i].witness.len() <= 65471),
    ensures
        parse_entries(encode_entries(txs)) == txs.map_values(|t: TxView| entry_of_tx(t)),
    decreases txs.len(),
{
    vstd::bytes::lemma_auto_spec_u16_to_from_le_bytes();
    if txs.len() == 0 {
        assert(encode_entries(txs).len() == 0);
        assert(parse_entries(encode_entries(txs)) =~= txs.map_values(|t: TxView| entry_of_tx(t)));
    } else {
        let t = txs[0];
        let frame_len = 64 + t.witness.len() as int;
        let body = encode_entries(txs);
        let head = encode_entry(t);
        assert(head.len() == 2 + 32 + 32 + t.witness.len());
        assert(body == head + encode_entries(txs.drop_first()));
        assert(body.len() >= 2);
        assert(body.subrange(0, 2) =~= vstd::bytes::spec_u16_to_le_bytes((64
            + t.witness.len()) as u16));
        assert(vstd::bytes::spec_u16_from_le_bytes(body.subrange(0, 2)) == (64
            + t.witness.len()) as u16);
        let rest = body.skip(2);
        assert(rest.subrange(0, 32) =~= t.key);
        assert(rest.subrange(32, 64) =~= t.owner);
        assert(rest.subrange(64, frame_len) =~= t.witness);
        assert(rest.skip(frame_len) =~= encode_entries(txs.drop_first()));
        lemma_parse_entries_of_encoding(txs.drop_first());
        assert(parse_entries(body) == seq![
            EntryView {
                subspace_hash: rest.subrange(0, 32),
                owner: rest.subrange(32, 64),
                witness: rest.subrange(64, frame_len),
            },
        ] + parse_entries(rest.skip(frame_len)));
        assert(parse_entries(body) =~= txs.map_values(|x: TxView| entry_of_tx(x))) by {
            assert(txs.drop_first().map_values(|x: TxView| entry_of_tx(x)) =~= txs.map_values(
                |x: TxView| entry_of_tx(x),
            ).drop_first());
        }
    }
}

/// The wire reader parses a built batch back into exactly its
/// transactions: the body of `wire_bytes` yields one entry per transaction,
/// in order, each carrying the transaction's subspace key, owner and
/// witness. Applied to a builder's output (`build` ensures the body is
/// `sort_txs(with_keys(..))`, and `lemma_sort_txs_sorted` orders it), this
/// says the reader yields the batch in the canonical order.
pub proof fn lemma_reader_parses_wire(version: u8, space_hash: Seq<u8>, txs: Seq<TxView>)
    requires
        space_hash.len() == 32,
        forall|i: int|
            0 <= i < txs.len() ==> (#[trigger] txs[i].key.len() == 32 && txs[i].owner.len() == 32
                && txs[i].witness.len() <= 65471),
    ensures
        parse_entries(wire_bytes(version, space_hash, txs).skip(33)) == txs.map_values(
            |t: TxView| entry_of_tx(t),
        ),
{
    assert(wire_bytes(version, space_hash, txs).skip(33) =~= encode_entries(txs));
    lemma_parse_entries_of_encoding(txs);
}

/// A built batch reads back as exactly its transactions in the canonical
/// order. `TransactionBuilder::build` emits
/// `wire_bytes(version, space_hash, sort_txs(with_keys(txs)))`; parsing
/// that body yields one entry per transaction — updates first, ascending by
/// subspace key within each group — each carrying the transaction's
/// subspace key, owner and witness.
pub proof fn lemma_build_reads_back_canonical(version: u8, space_hash: Seq<u8>, txs: Seq<TxView>)
    requires
        space_hash.len() == 32,
        forall|i: int|
            0 <= i < txs.len() ==> #[trigger] txs[i].owner.len() == 32 && txs[i].witness.len()
                <= 65471,
    ensures
        parse_entries(wire_bytes(version, space_hash, sort_txs(with_keys(txs))).skip(33))
            == sort_txs(with_keys(txs)).map_values(|t: TxView| entry_of_tx(t)),
        canonically_sorted(sort_txs(with_keys(txs))),
{
    broadcast use vstd::array::group_array_axioms;

    let w = with_keys(txs);
    lemma_sort_txs_sorted(w);
    lemma_sort_txs_multiset(w);
    let sorted = sort_txs(w);
    assert forall|i: int|
        0 <= i < sorted.len() implies (#[trigger] sorted[i].key.len() == 32
        && sorted[i].owner.len() == 32 && sorted[i].witness.len() <= 65471) by {
        broadcast use vstd::seq_lib::group_to_multiset_ensures;

        assert(sorted.contains(sorted[i]));
        assert(sorted.to_multiset().contains(sorted[i]));
        assert(w.to_multiset().contains(sorted[i]));
        assert(w.contains(sorted[i]));
        let m = choose|m: int| 0 <= m < w.len() && w[m] == sorted[i];
        assert(w[m] == with_key(txs[m]));
        assert(txs[m].owner.len() == 32 && txs[m].witness.len() <= 65471);
        assert(sorted[i].owner == txs[m].owner);
        assert(sorted[i].witness == txs[m].witness);
        assert(sorted[i].key == name_hash(txs[m].name));
        assert(sorted[i].key.len() == 32);
    }
    lemma_reader_parses_wire(version, space_hash, sorted);
}

} // verus!
