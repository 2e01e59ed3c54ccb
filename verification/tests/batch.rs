use sha2::Digest;
use subspacer::builder::builder_stats;
use subspacer::builder::BuilderError;
use subspacer::builder::Transaction;
use subspacer::builder::TransactionBuilder;
use subspacer::crypto::OwnerPublicKey;
use subspacer::crypto::SigningKey;
use subspacer::TransactionReader;
use subspacer::HEADER_SIZE;

fn sha256(bytes: &[u8]) -> [u8; 32] {
    sha2::Sha256::digest(bytes).into()
}

fn update_tx(name: &str, owner: [u8; 32]) -> Transaction {
    let mut tx = Transaction::new(name, owner);
    tx.witness = vec![0u8; 65];
    tx
}

#[test]
fn transaction_new_caches_subspace_key() {
    let tx = Transaction::new("hello", [3u8; 32]);
    assert_eq!(tx.key, sha256(b"hello"));
    assert_eq!(tx.owner, [3u8; 32]);
    assert!(tx.witness.is_empty());
}

#[test]
fn empty_batch_is_header_only() {
    let builder = TransactionBuilder::new();
    let bytes = builder.build("a").unwrap();
    assert_eq!(bytes.len(), 33);
    assert_eq!(bytes[0], 0);
    assert_eq!(&bytes[1..33], &sha256(b"a"));
}

#[test]
fn duplicate_name_rejected_and_batch_unchanged() {
    let mut builder = TransactionBuilder::new();
    builder.add(Transaction::new("n", [1u8; 32]), None).unwrap();
    let result = builder.add(Transaction::new("n", [2u8; 32]), None);
    assert_eq!(result, Err(BuilderError::DuplicateName));
    assert_eq!(builder.transactions.len(), 1);
    assert_eq!(builder.transactions[0].owner, [1u8; 32]);
}

#[test]
fn mixed_batch_is_sorted_updates_first() {
    // Two updates and two registrations added in a scrambled order come
    // out as updates then registrations, each group ascending by key.
    let names = ["alpha", "beta", "gamma", "delta"];
    let mut builder = TransactionBuilder::new();
    builder.add(Transaction::new(names[2], [0u8; 32]), None).unwrap();
    builder.add(update_tx(names[1], [0u8; 32]), None).unwrap();
    builder.add(Transaction::new(names[3], [0u8; 32]), None).unwrap();
    builder.add(update_tx(names[0], [0u8; 32]), None).unwrap();
    let bytes = builder.build("s").unwrap();

    let mut updates = vec![sha256(names[0].as_bytes()), sha256(names[1].as_bytes())];
    updates.sort();
    let mut registrations = vec![sha256(names[2].as_bytes()), sha256(names[3].as_bytes())];
    registrations.sort();
    let mut expected = updates;
    expected.extend_from_slice(&registrations);

    let reader = TransactionReader::new(&bytes);
    let mut iter = reader.iter();
    let mut seen: Vec<[u8; 32]> = Vec::new();
    while let Some(entry) = iter.next() {
        seen.push(entry.subspace_hash.try_into().unwrap());
    }
    assert_eq!(seen, expected);
}

#[test]
fn build_is_insertion_order_independent() {
    let txs = [
        Transaction::new("one", [1u8; 32]),
        update_tx("two", [2u8; 32]),
        Transaction::new("three", [3u8; 32]),
        update_tx("four", [4u8; 32]),
    ];
    let mut forward = TransactionBuilder::new();
    for tx in txs.iter() {
        let mut copy = Transaction::new(&tx.name, tx.owner);
        copy.witness = tx.witness.clone();
        forward.add(copy, None).unwrap();
    }
    let mut backward = TransactionBuilder::new();
    for tx in txs.iter().rev() {
        let mut copy = Transaction::new(&tx.name, tx.owner);
        copy.witness = tx.witness.clone();
        backward.add(copy, None).unwrap();
    }
    assert_eq!(forward.build("s").unwrap(), backward.build("s").unwrap());
}

#[test]
fn building_a_sorted_batch_preserves_it() {
    // Add transactions already in the canonical order; the serialized body
    // keeps that order (sorting a sorted batch is a no-op).
    let mut names = ["p", "q", "r"];
    names.sort_by_key(|n| sha256(n.as_bytes()));
    let mut builder = TransactionBuilder::new();
    for name in names.iter() {
        builder.add(Transaction::new(name, [0u8; 32]), None).unwrap();
    }
    let bytes = builder.build("s").unwrap();
    let reader = TransactionReader::new(&bytes);
    let mut iter = reader.iter();
    for name in names.iter() {
        let entry = iter.next().unwrap();
        assert_eq!(entry.subspace_hash, &sha256(name.as_bytes()));
    }
    assert!(iter.next().is_none());
}

#[test]
fn merge_rejects_duplicates_leaving_batch_untouched() {
    let mut target = TransactionBuilder::new();
    target.add(Transaction::new("a", [1u8; 32]), None).unwrap();

    let mut other = TransactionBuilder::new();
    other.add(Transaction::new("b", [2u8; 32]), None).unwrap();
    other.add(Transaction::new("a", [3u8; 32]), None).unwrap();
    other.add(Transaction::new("c", [4u8; 32]), None).unwrap();

    let result = target.merge(other);
    assert_eq!(result, Err(BuilderError::DuplicateName));
    // A rejected merge leaves the batch exactly as it was.
    assert_eq!(target.transactions.len(), 1);
    assert_eq!(target.transactions[0].name, "a");
    assert_eq!(target.transactions[0].owner, [1u8; 32]);
}

#[test]
fn merge_appends_all_when_names_unique() {
    let mut target = TransactionBuilder::new();
    target.add(Transaction::new("a", [1u8; 32]), None).unwrap();
    let mut other = TransactionBuilder::new();
    other.add(Transaction::new("b", [2u8; 32]), None).unwrap();
    assert!(target.merge(other).is_ok());
    assert_eq!(target.transactions.len(), 2);
}

#[test]
fn stats_count_registrations_and_updates() {
    let mut builder = TransactionBuilder::new();
    builder.add(Transaction::new("a", [0u8; 32]), None).unwrap();
    builder.add(update_tx("b", [0u8; 32]), None).unwrap();
    builder.add(Transaction::new("c", [0u8; 32]), None).unwrap();
    assert_eq!(builder_stats(&builder), (2, 1));
}

#[test]
fn signed_add_writes_signature_witness() {
    let key = SigningKey::from_bytes(&[7u8; 32]).expect("valid scalar");
    let mut builder = TransactionBuilder::new();
    let mut tx = Transaction::new("n", [5u8; 32]);
    tx.witness = vec![0xde, 0xad];
    builder.add(tx, Some(("s", key))).unwrap();
    let witness = &builder.transactions[0].witness;
    assert_eq!(witness.len(), 65);
    assert_eq!(witness[0], 0x00);
    // The prior witness bytes are gone: the witness is the tag and the
    // 64-byte signature alone.
    assert_ne!(&witness[..2], &[0xde, 0xad]);
}

#[test]
fn wire_frames_carry_length_key_owner_witness() {
    let mut builder = TransactionBuilder::new();
    let mut tx = Transaction::new("n", [6u8; 32]);
    tx.witness = vec![0u8, 9u8, 9u8];
    builder.add(tx, None).unwrap();
    let bytes = builder.build("space").unwrap();
    assert_eq!(bytes.len(), HEADER_SIZE + 2 + 64 + 3);
    let body = &bytes[HEADER_SIZE..];
    assert_eq!(u16::from_le_bytes([body[0], body[1]]), 67);
    assert_eq!(&body[2..34], &sha256(b"n"));
    assert_eq!(&body[34..66], &[6u8; 32]);
    assert_eq!(&body[66..69], &[0u8, 9u8, 9u8]);
}

#[test]
fn signing_key_round_trips_through_bytes() {
    let key = SigningKey::from_bytes(&[7u8; 32]).expect("valid scalar");
    assert_eq!(key.to_bytes(), vec![7u8; 32]);
    // Zero is not a valid secret scalar.
    assert!(SigningKey::from_bytes(&[0u8; 32]).is_none());
    // A short encoding is zero-padded on the left.
    let padded = SigningKey::from_bytes(&[7u8; 31]).expect("valid scalar");
    let mut expected = vec![0u8];
    expected.extend_from_slice(&[7u8; 31]);
    assert_eq!(padded.to_bytes(), expected);
    // Anything under 24 bytes is rejected outright.
    assert!(SigningKey::from_bytes(&[7u8; 23]).is_none());
}

#[test]
fn owner_public_key_is_the_x_coordinate() {
    let scalar = [7u8; 32];
    let key = SigningKey::from_bytes(&scalar).expect("valid scalar");
    let raw = k256::ecdsa::SigningKey::from_slice(&scalar).unwrap();
    let point = raw.verifying_key().to_sec1_point(true);
    let expected: [u8; 32] = point.as_bytes()[1..33].try_into().unwrap();
    assert_eq!(key.owner_public_key(), expected);
}
