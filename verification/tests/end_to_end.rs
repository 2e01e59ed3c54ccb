use k256::ecdsa::signature::Signer;
use spacedb::subtree::SubTree as RawSubTree;
use spacedb::subtree::ValueOrHash;
use spacedb::Sha256Hasher;
use subspacer::builder::Transaction;
use subspacer::builder::TransactionBuilder;
use subspacer::guest::handle_tx_set;
use subspacer::guest::run;
use subspacer::guest::GuestError;

fn sha256(bytes: &[u8]) -> [u8; 32] {
    <sha2::Sha256 as sha2::Digest>::digest(bytes).into()
}

/// Frames one guest input: fragment length, serialized fragment, batch.
fn guest_input(fragment: &RawSubTree<Sha256Hasher>, batch: &[u8]) -> Vec<u8> {
    let fragment_bytes = fragment.to_vec().unwrap();
    let mut input = (fragment_bytes.len() as u32).to_le_bytes().to_vec();
    input.extend_from_slice(&fragment_bytes);
    input.extend_from_slice(batch);
    input
}

fn even_y_key() -> (k256::ecdsa::SigningKey, [u8; 32]) {
    let mut scalar = [0u8; 32];
    for candidate in 1u8..=255 {
        scalar[31] = candidate;
        let key = k256::ecdsa::SigningKey::from_slice(&scalar).unwrap();
        let point = key.verifying_key().to_sec1_point(true);
        let bytes = point.as_bytes();
        if bytes[0] == 0x02 {
            let x: [u8; 32] = bytes[1..33].try_into().unwrap();
            return (key, x);
        }
    }
    panic!("no even-y key among the candidates");
}

#[test]
fn fresh_registration_into_empty_subtree() {
    // Space "a", empty subtree, one registration of "n" owned by zeros.
    let mut builder = TransactionBuilder::new();
    builder.add(Transaction::new("n", [0u8; 32]), None).unwrap();
    let batch = builder.build("a").unwrap();

    let fragment = RawSubTree::<Sha256Hasher>::empty();
    let commitment = handle_tx_set(&guest_input(&fragment, &batch)).unwrap();

    assert_eq!(commitment.space, sha256(b"a"));
    let empty_root = RawSubTree::<Sha256Hasher>::empty().compute_root().unwrap();
    assert_eq!(commitment.initial_root, empty_root);

    let mut expected = RawSubTree::<Sha256Hasher>::empty();
    expected.insert(sha256(b"n"), ValueOrHash::Hash([0u8; 32])).unwrap();
    assert_eq!(commitment.final_root, expected.compute_root().unwrap());
    assert_ne!(commitment.final_root, empty_root);
}

#[test]
fn empty_batch_commits_unchanged_root() {
    let builder = TransactionBuilder::new();
    let batch = builder.build("a").unwrap();
    assert_eq!(batch.len(), 33);

    let mut fragment = RawSubTree::<Sha256Hasher>::empty();
    fragment.update(sha256(b"n"), ValueOrHash::Value(vec![1u8; 32])).unwrap();
    let commitment = handle_tx_set(&guest_input(&fragment, &batch)).unwrap();
    assert_eq!(commitment.space, sha256(b"a"));
    assert_eq!(commitment.initial_root, commitment.final_root);
}

#[test]
fn valid_transfer_commits_new_owner() {
    let (signing_key, old_x) = even_y_key();
    let subspace = sha256(b"n");
    let new_owner = [9u8; 32];

    let mut fragment = RawSubTree::<Sha256Hasher>::empty();
    fragment.update(subspace, ValueOrHash::Value(old_x.to_vec())).unwrap();

    let mut msg = subspace.to_vec();
    msg.extend_from_slice(&new_owner);
    let signature: k256::ecdsa::Signature = signing_key.sign(&msg);
    let mut tx = Transaction::new("n", new_owner);
    tx.witness = vec![0x00u8];
    tx.witness.extend_from_slice(&signature.to_bytes());

    let mut builder = TransactionBuilder::new();
    builder.add(tx, None).unwrap();
    let batch = builder.build("a").unwrap();

    let commitment = handle_tx_set(&guest_input(&fragment, &batch)).unwrap();

    let mut expected = RawSubTree::<Sha256Hasher>::empty();
    expected.update(subspace, ValueOrHash::Value(new_owner.to_vec())).unwrap();
    assert_eq!(commitment.final_root, expected.compute_root().unwrap());
}

#[test]
fn transfer_with_wrong_key_aborts() {
    let (_, old_x) = even_y_key();
    let wrong_key = k256::ecdsa::SigningKey::from_slice(&[42u8; 32]).unwrap();
    let subspace = sha256(b"n");
    let new_owner = [9u8; 32];

    let mut fragment = RawSubTree::<Sha256Hasher>::empty();
    fragment.update(subspace, ValueOrHash::Value(old_x.to_vec())).unwrap();

    let mut msg = subspace.to_vec();
    msg.extend_from_slice(&new_owner);
    let signature: k256::ecdsa::Signature = wrong_key.sign(&msg);
    let mut tx = Transaction::new("n", new_owner);
    tx.witness = vec![0x00u8];
    tx.witness.extend_from_slice(&signature.to_bytes());

    let mut builder = TransactionBuilder::new();
    builder.add(tx, None).unwrap();
    let batch = builder.build("a").unwrap();

    let r = handle_tx_set(&guest_input(&fragment, &batch));
    assert_eq!(r.unwrap_err(), GuestError::InvalidSignature);
}

#[test]
fn registering_existing_key_aborts() {
    let subspace = sha256(b"n");
    let mut fragment = RawSubTree::<Sha256Hasher>::empty();
    fragment.update(subspace, ValueOrHash::Hash([7u8; 32])).unwrap();

    let mut builder = TransactionBuilder::new();
    builder.add(Transaction::new("n", [0u8; 32]), None).unwrap();
    let batch = builder.build("a").unwrap();

    let r = handle_tx_set(&guest_input(&fragment, &batch));
    assert_eq!(r.unwrap_err(), GuestError::KeyExists);
}

#[test]
fn misaligned_update_aborts() {
    // The fragment's only leaf sorts below the update's subspace hash.
    let mut names = ["x", "y"];
    names.sort_by_key(|n| sha256(n.as_bytes()));
    let (low, high) = (names[0], names[1]);

    let mut fragment = RawSubTree::<Sha256Hasher>::empty();
    fragment.update(sha256(low.as_bytes()), ValueOrHash::Value(vec![1u8; 32])).unwrap();

    let mut tx = Transaction::new(high, [0u8; 32]);
    tx.witness = vec![0u8; 65];
    let mut builder = TransactionBuilder::new();
    builder.add(tx, None).unwrap();
    let batch = builder.build("a").unwrap();

    let r = handle_tx_set(&guest_input(&fragment, &batch));
    assert_eq!(r.unwrap_err(), GuestError::UnalignedSubTree);
}

#[test]
fn run_commits_one_record_per_input() {
    let mut first = TransactionBuilder::new();
    first.add(Transaction::new("n", [0u8; 32]), None).unwrap();
    let batch_a = first.build("a").unwrap();
    let second = TransactionBuilder::new();
    let batch_b = second.build("b").unwrap();

    let fragment = RawSubTree::<Sha256Hasher>::empty();
    let inputs = vec![guest_input(&fragment, &batch_a), guest_input(&fragment, &batch_b)];
    let commitments = run(inputs).unwrap();
    assert_eq!(commitments.len(), 2);
    assert_eq!(commitments[0].space, sha256(b"a"));
    assert_eq!(commitments[1].space, sha256(b"b"));
}

#[test]
fn truncated_input_is_malformed() {
    assert_eq!(handle_tx_set(&[1, 2]).unwrap_err(), GuestError::MalformedInput);
    // A length field pointing past the end of the input.
    let input = 100u32.to_le_bytes().to_vec();
    assert_eq!(handle_tx_set(&input).unwrap_err(), GuestError::MalformedInput);
    // A fragment that does not decode.
    let mut input = 3u32.to_le_bytes().to_vec();
    input.extend_from_slice(&[0xff, 0xff, 0xff]);
    input.extend_from_slice(&[0u8; 40]);
    assert_eq!(handle_tx_set(&input).unwrap_err(), GuestError::MalformedInput);
}
