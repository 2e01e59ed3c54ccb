//! Trusted boundary to the hash and signature suites: SHA-256 digests
//! (`sha2`) and ECDSA over secp256k1 (`k256`).
//!
//! Every outside result here — digests, parse outcomes, deterministic
//! (RFC 6979) signatures, and the verification verdict itself — is a
//! function of its byte inputs alone, so each is given a name
//! (`sha256_of`, `sec1_point_valid`, `signature_parses`, `scalar_key_valid`,
//! `key_scalar`, `sig_of`, `ecdsa_verifies`) that the contracts of the rest
//! of the crate speak of.
use vstd::prelude::*;

verus! {

/// The SHA-256 digest of a byte sequence: a fixed 32-byte output.
pub uninterp spec fn sha256_of(bytes: Seq<u8>) -> [u8; 32];

/// Whether a byte sequence is a valid SEC1 encoding of a secp256k1 point
/// (and so parses as a verifying key).
pub uninterp spec fn sec1_point_valid(bytes: Seq<u8>) -> bool;

/// Whether a byte sequence parses as a fixed-size ECDSA signature: exactly
/// 64 bytes holding two nonzero in-range scalars.
pub uninterp spec fn signature_parses(bytes: Seq<u8>) -> bool;

/// Whether a byte sequence parses as a secp256k1 secret scalar: at least
/// 24 and at most 32 bytes that, left-padded with zeros to 32, form a
/// nonzero big-endian integer below the group order.
pub uninterp spec fn scalar_key_valid(bytes: Seq<u8>) -> bool;

/// The 32-byte big-endian scalar a signing key carries.
pub uninterp spec fn key_scalar(key: SigningKey) -> Seq<u8>;

/// The fixed-size `r || s` form of the deterministic (RFC 6979) ECDSA
/// signature of a message under a secret scalar, with SHA-256 prehash.
pub uninterp spec fn sig_of(scalar: Seq<u8>, msg: Seq<u8>) -> Seq<u8>;

/// The ECDSA verification verdict for a SEC1-encoded public key, a message
/// (SHA-256 prehashed) and a 64-byte signature: a function of the three
/// byte strings alone.
pub uninterp spec fn ecdsa_verifies(sec1: Seq<u8>, msg: Seq<u8>, signature: Seq<u8>) -> bool;

/// The x-coordinate of the public point of the key with this secret
/// scalar: its compressed SEC1 encoding with the tag byte stripped.
pub uninterp spec fn x_coordinate_of(scalar: Seq<u8>) -> Seq<u8>;

/// A byte sequence of up to 32 bytes, left-padded with zeros to 32.
pub open spec fn padded_scalar(bytes: Seq<u8>) -> Seq<u8> {
    if bytes.len() <= 32 {
        Seq::new((32 - bytes.len()) as nat, |i: int| 0u8) + bytes
    } else {
        bytes
    }
}

/// Relies on `sha2::Sha256` through the `Digest` trait: the result is the
/// SHA-256 digest of the input, a fixed 32-byte output.
#[verifier::external_body]
pub(crate) fn sha256(bytes: &[u8]) -> (r: [u8; 32])
    ensures
        r == sha256_of(bytes@),
{
    let digest = <sha2::Sha256 as sha2::Digest>::digest(bytes);
    digest.into()
}

/// A secp256k1 signing key. Verus cannot declare `k256`'s own key type (its
/// generic bounds are traits of outside crates), so the key rides in an
/// opaque struct and is built from its big-endian scalar encoding.
#[verifier::external_body]
pub struct SigningKey {
    inner: k256::ecdsa::SigningKey,
}

impl SigningKey {
    /// Relies on `ecdsa::SigningKey::from_slice`: it succeeds exactly when
    /// the bytes are a valid scalar encoding (24 to 32 bytes, zero-padded
    /// to a nonzero integer below the secp256k1 group order), a function of
    /// the bytes alone.
    #[verifier::external_body]
    pub fn from_bytes(bytes: &[u8]) -> (r: Option<SigningKey>)
        ensures
            (r is Some) == scalar_key_valid(bytes@),
            r matches Some(key) ==> key_scalar(key) == padded_scalar(bytes@),
    {
        match k256::ecdsa::SigningKey::from_slice(bytes) {
            Ok(inner) => Some(SigningKey { inner }),
            Err(_) => None,
        }
    }

    /// Relies on `ecdsa::SigningKey::to_bytes`: the key's scalar in its
    /// fixed 32-byte big-endian encoding.
    #[verifier::external_body]
    pub fn to_bytes(&self) -> (r: Vec<u8>)
        ensures
            r@ == key_scalar(*self),
            r@.len() == 32,
    {
        self.inner.to_bytes().to_vec()
    }
}

/// Relies on `ecdsa::SigningKey`'s `Signer` impl (deterministic RFC 6979
/// ECDSA with SHA-256 prehash) and `Signature::to_bytes`: the serialized
/// signature is the fixed-size 64-byte `r || s` form.
#[verifier::external_body]
pub(crate) fn sign_message(key: &SigningKey, msg: &[u8]) -> (r: Vec<u8>)
    ensures
        r@ == sig_of(key_scalar(*key), msg@),
        r@.len() == 64,
{
    let signature: k256::ecdsa::Signature = k256::ecdsa::signature::Signer::sign(&key.inner, msg);
    signature.to_bytes().to_vec()
}

/// Relies on `ecdsa::VerifyingKey::from_sec1_bytes`: it succeeds exactly
/// when the bytes are a valid SEC1 point encoding, a function of the bytes
/// alone.
#[verifier::external_body]
pub(crate) fn point_check(sec1: &[u8]) -> (r: bool)
    ensures
        r == sec1_point_valid(sec1@),
{
    k256::ecdsa::VerifyingKey::from_sec1_bytes(sec1).is_ok()
}

/// Relies on `ecdsa::Signature::from_slice`: it succeeds exactly when the
/// slice is 64 bytes holding two nonzero in-range scalars, a function of the
/// bytes alone; any other length is rejected.
#[verifier::external_body]
pub(crate) fn signature_check(bytes: &[u8]) -> (r: bool)
    ensures
        r == signature_parses(bytes@),
        bytes@.len() != 64 ==> !r,
{
    k256::ecdsa::Signature::from_slice(bytes).is_ok()
}

/// Relies on `ecdsa::VerifyingKey::from_sec1_bytes`, `Signature::from_slice`
/// and the `Verifier` impl (ECDSA with SHA-256 prehash): the verdict is a
/// function of the three byte arguments alone, and verification can succeed
/// only on a key and a signature that parse.
#[verifier::external_body]
pub(crate) fn ecdsa_verify(sec1: &[u8], msg: &[u8], signature: &[u8]) -> (r: bool)
    ensures
        r == ecdsa_verifies(sec1@, msg@, signature@),
        r ==> sec1_point_valid(sec1@) && signature_parses(signature@),
{
    let key = match k256::ecdsa::VerifyingKey::from_sec1_bytes(sec1) {
        Ok(key) => key,
        Err(_) => return false,
    };
    let signature = match k256::ecdsa::Signature::from_slice(signature) {
        Ok(signature) => signature,
        Err(_) => return false,
    };
    k256::ecdsa::signature::Verifier::verify(&key, msg, &signature).is_ok()
}

/// A signing key's owner encoding: the x-coordinate of its public key.
///
/// Only keys whose compressed SEC1 form carries the even-`y` tag are
/// representable; the authorization layer re-prepends that tag before
/// verification.
pub trait OwnerPublicKey {
    fn owner_public_key(&self) -> [u8; 32];
}

/// Relies on `ecdsa::VerifyingKey::to_sec1_point` with compression: the
/// encoding is 33 bytes, a tag byte followed by the x-coordinate — a
/// function of the key's scalar alone.
#[verifier::external_body]
fn compressed_x_coordinate(key: &SigningKey) -> (r: [u8; 32])
    ensures
        r@ == x_coordinate_of(key_scalar(*key)),
{
    let point = key.inner.verifying_key().to_sec1_point(true);
    let bytes = point.as_bytes();
    let mut owner = [0u8; 32];
    owner.copy_from_slice(&bytes[1..33]);
    owner
}

impl OwnerPublicKey for SigningKey {
    fn owner_public_key(&self) -> (r: [u8; 32])
        ensures
            r@ == x_coordinate_of(key_scalar(*self)),
    {
        compressed_x_coordinate(self)
    }
}

} // verus!
