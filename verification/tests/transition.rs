use k256::ecdsa::signature::Signer;
use subspacer::guest::handle_transition;
use subspacer::guest::GuestError;
use subspacer::Entry;

/// A signing key whose public key has an even y coordinate (compressed tag
/// 0x02), so that its x coordinate alone can stand as an owner.
fn even_y_key() -> (k256::ecdsa::SigningKey, [u8; 32]) {
    let mut scalar = [0u8; 32];
    for candidate in 1u8..=255 {
        scalar[31] = candidate;
        let key = k256::ecdsa::SigningKey::from_slice(&scalar).unwrap();
        let point = key.verifying_key().to_sec1_point(true);
        let bytes = point.as_bytes();
        if bytes[0] == 0x02 {
            let x: [u8; 32] = bytes[1..33].try_into().unwrap();
            return (key, x);
        }
    }
    panic!("no even-y key among the candidates");
}

fn entry<'a>(subspace: &'a [u8; 32], owner: &'a [u8; 32], witness: &'a [u8]) -> Entry<'a> {
    Entry { subspace_hash: &subspace[..], owner: &owner[..], witness }
}

#[test]
fn unaligned_leaf_rejected() {
    // The leaf key is below the update's subspace hash: the zip is out of
    // alignment and the transition must fail.
    let key = [1u8; 32];
    let subspace = [2u8; 32];
    let owner = [0u8; 32];
    let mut value = vec![0u8; 32];
    let witness = [0x00u8; 65];
    let r = handle_transition(&key, &mut value, &entry(&subspace, &owner, &witness));
    assert_eq!(r, Err(GuestError::UnalignedSubTree));
    assert_eq!(value, vec![0u8; 32]);
}

#[test]
fn short_leaf_value_rejected() {
    let key = [1u8; 32];
    let owner = [0u8; 32];
    let mut value = vec![0u8; 31];
    let witness = [0x00u8; 65];
    let r = handle_transition(&key, &mut value, &entry(&key, &owner, &witness));
    assert_eq!(r, Err(GuestError::ExpectedPublicKey));
}

#[test]
fn empty_witness_rejected() {
    let key = [1u8; 32];
    let owner = [0u8; 32];
    let mut value = vec![0u8; 32];
    let r = handle_transition(&key, &mut value, &entry(&key, &owner, &[]));
    assert_eq!(r, Err(GuestError::WitnessRequired));
}

#[test]
fn unknown_witness_tag_rejected() {
    let key = [1u8; 32];
    let owner = [0u8; 32];
    let mut value = vec![0u8; 32];
    let witness = [0x01u8; 65];
    let r = handle_transition(&key, &mut value, &entry(&key, &owner, &witness));
    assert_eq!(r, Err(GuestError::UnsupportedWitness));
}

#[test]
fn invalid_point_rejected() {
    // An x coordinate beyond the field modulus cannot parse as a point.
    let key = [1u8; 32];
    let owner = [0u8; 32];
    let mut value = vec![0xffu8; 32];
    let witness = [0x00u8; 65];
    let r = handle_transition(&key, &mut value, &entry(&key, &owner, &witness));
    assert_eq!(r, Err(GuestError::ExpectedPublicKey));
}

#[test]
fn one_byte_witness_fails_signature_parse() {
    // A witness of the tag byte alone leaves zero signature bytes: the
    // signature parse fails.
    let (_, x) = even_y_key();
    let key = [1u8; 32];
    let owner = [0u8; 32];
    let mut value = x.to_vec();
    let witness = [0x00u8];
    let r = handle_transition(&key, &mut value, &entry(&key, &owner, &witness));
    assert_eq!(r, Err(GuestError::InvalidSignature));
    assert_eq!(value, x.to_vec());
}

#[test]
fn valid_transfer_replaces_owner() {
    let (signing_key, x) = even_y_key();
    let key: [u8; 32] = <sha2::Sha256 as sha2::Digest>::digest(b"n").into();
    let new_owner = [9u8; 32];
    let mut msg = key.to_vec();
    msg.extend_from_slice(&new_owner);
    let signature: k256::ecdsa::Signature = signing_key.sign(&msg);
    let mut witness = vec![0x00u8];
    witness.extend_from_slice(&signature.to_bytes());

    let mut value = x.to_vec();
    let r = handle_transition(&key, &mut value, &entry(&key, &new_owner, &witness));
    assert_eq!(r, Ok(()));
    assert_eq!(value, new_owner.to_vec());
}

#[test]
fn transfer_with_wrong_signer_rejected() {
    let (_, x) = even_y_key();
    let wrong_key = k256::ecdsa::SigningKey::from_slice(&[42u8; 32]).unwrap();
    let key: [u8; 32] = <sha2::Sha256 as sha2::Digest>::digest(b"n").into();
    let new_owner = [9u8; 32];
    let mut msg = key.to_vec();
    msg.extend_from_slice(&new_owner);
    let signature: k256::ecdsa::Signature = wrong_key.sign(&msg);
    let mut witness = vec![0x00u8];
    witness.extend_from_slice(&signature.to_bytes());

    let mut value = x.to_vec();
    let r = handle_transition(&key, &mut value, &entry(&key, &new_owner, &witness));
    assert_eq!(r, Err(GuestError::InvalidSignature));
    assert_eq!(value, x.to_vec());
}
