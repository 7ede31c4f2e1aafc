//! The hash and the signature scheme, as `tmelcrypt` provides them.
//!
//! Nothing here is proved about BLAKE3 or Ed25519: each primitive gets a name,
//! and the rest of the library is verified against those names.

use crate::bytes32::{Bytes32, HashVal, PublicKey, SecretKey};
use vstd::prelude::*;

verus! {

/// The 32-byte BLAKE3 digest of `data`.
pub uninterp spec fn blake3_digest(data: Seq<u8>) -> Seq<u8>;

/// Whether the 32-byte Ed25519 public key `key` accepts `sig` as a signature
/// of `msg`.
pub uninterp spec fn ed25519_accepts(key: Seq<u8>, msg: Seq<u8>, sig: Seq<u8>) -> bool;

/// The Ed25519 signature of `msg` under the seed that opens the 64-byte
/// secret key `secret`.
pub uninterp spec fn ed25519_signature(secret: Seq<u8>, msg: Seq<u8>) -> Seq<u8>;

/// `tmelcrypt::hash_single`: the BLAKE3 digest of the bytes, which depends on
/// the bytes alone.
#[verifier::external_body]
fn blake3(data: &[u8]) -> (d: [u8; 32])
    ensures
        d@ == blake3_digest(data@),
{
    tmelcrypt::hash_single(data).0
}

/// `tmelcrypt::Ed25519PK::verify`: a pure test of the three byte strings; it
/// answers `false`, and does not fail, on a signature of the wrong length or a
/// key that is no curve point.
#[verifier::external_body]
fn ed25519_verify(key: &[u8; 32], msg: &[u8; 32], sig: &[u8]) -> (ok: bool)
    ensures
        ok == ed25519_accepts(key@, msg@, sig@),
{
    tmelcrypt::Ed25519PK(*key).verify(msg, sig)
}

/// `tmelcrypt::Ed25519SK::sign`: the deterministic Ed25519 signature made
/// with the first 32 bytes of the secret key.
#[verifier::external_body]
fn ed25519_sign(secret: &[u8; 64], msg: &[u8; 32]) -> (sig: Vec<u8>)
    ensures
        sig@ == ed25519_signature(secret@, msg@),
{
    tmelcrypt::Ed25519SK(*secret).sign(msg)
}

/// `tmelcrypt::Ed25519SK::to_public`: the last 32 bytes of the secret key.
#[verifier::external_body]
fn ed25519_public(secret: &[u8; 64]) -> (key: [u8; 32])
    ensures
        key@ == secret@.subrange(32, 64),
{
    tmelcrypt::Ed25519SK(*secret).to_public().0
}

/// The digest of `data` as a hash value.
pub open spec fn digest(data: Seq<u8>) -> HashVal {
    Bytes32::from_seq(blake3_digest(data))
}

/// Whether `sig` is a valid signature by `key` over the hash `h`.
pub open spec fn signature_valid(key: PublicKey, h: HashVal, sig: Seq<u8>) -> bool {
    ed25519_accepts(key.to_seq(), h.to_seq(), sig)
}

/// The signature that `secret` makes over the hash `h`.
pub open spec fn signature_by(secret: SecretKey, h: HashVal) -> Seq<u8> {
    ed25519_signature(secret.bytes@, h.to_seq())
}

/// The public key that `secret` carries.
pub open spec fn public_of(secret: SecretKey) -> PublicKey {
    Bytes32::from_seq(secret.bytes@.subrange(32, 64))
}

/// Hashes a byte string.
pub fn hash_of(data: &[u8]) -> (h: HashVal)
    ensures
        h == digest(data@),
{
    let d = blake3(data);
    Bytes32::from_bytes(&d)
}

/// Checks a signature over a hash.
pub fn verify(key: &PublicKey, h: &HashVal, sig: &[u8]) -> (ok: bool)
    ensures
        ok == signature_valid(*key, *h, sig@),
{
    let k = key.to_bytes();
    let m = h.to_bytes();
    ed25519_verify(&k, &m, sig)
}

/// Signs a hash.
pub fn sign(secret: &SecretKey, h: &HashVal) -> (sig: Vec<u8>)
    ensures
        sig@ == signature_by(*secret, *h),
{
    let m = h.to_bytes();
    ed25519_sign(&secret.bytes, &m)
}

impl SecretKey {
    /// The public half of the key pair.
    pub fn to_public(&self) -> (key: PublicKey)
        ensures
            key == public_of(*self),
    {
        let k = ed25519_public(&self.bytes);
        Bytes32::from_bytes(&k)
    }
}

} // verus!
