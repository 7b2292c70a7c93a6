//! Signatures and fingerprints: Ed25519 and SHA-256.

use ed25519_dalek::Signer;
use ed25519_dalek::Verifier;
use rand::RngCore;
use sha2::Digest;
use vstd::prelude::*;

use crate::text;

verus! {

/// The public key that belongs to an Ed25519 secret key.
pub uninterp spec fn ed25519_public(secret: Seq<u8>) -> Seq<u8>;

/// The Ed25519 signature over a message under a secret key.
pub uninterp spec fn ed25519_signature(secret: Seq<u8>, message: Seq<u8>) -> Seq<u8>;

/// Whether bytes are an Ed25519 signature over a message under a public key.
pub uninterp spec fn ed25519_verifies(
    public: Seq<u8>,
    message: Seq<u8>,
    signature: Seq<u8>,
) -> bool;

/// The SHA-256 digest of bytes.
pub uninterp spec fn sha256(data: Seq<u8>) -> Seq<u8>;

/// Trusted: `ed25519_dalek::SigningKey::verifying_key` is a function of the
/// secret key alone, 32 bytes long.
#[verifier::external_body]
fn dalek_public(secret: &[u8; 32]) -> (r: [u8; 32])
    ensures
        r@ == ed25519_public(secret@),
{
    ed25519_dalek::SigningKey::from_bytes(secret).verifying_key().to_bytes()
}

/// Trusted: `ed25519_dalek::SigningKey::sign` is a function of the secret key
/// and the message alone (the scheme draws no random number), 64 bytes long,
/// and the signature holds under the public key that belongs to the secret one.
#[verifier::external_body]
fn dalek_sign(secret: &[u8; 32], message: &[u8]) -> (r: [u8; 64])
    ensures
        r@ == ed25519_signature(secret@, message@),
        ed25519_verifies(ed25519_public(secret@), message@, r@),
{
    ed25519_dalek::SigningKey::from_bytes(secret).sign(message).to_bytes()
}

/// Trusted: `ed25519_dalek::VerifyingKey::verify` is a function of the public
/// key, the message and the signature alone. Bytes that are no public key verify
/// nothing.
#[verifier::external_body]
fn dalek_verify(public: &[u8; 32], message: &[u8], signature: &[u8; 64]) -> (r: bool)
    ensures
        r == ed25519_verifies(public@, message@, signature@),
{
    let signature = ed25519_dalek::Signature::from_bytes(signature);
    match ed25519_dalek::VerifyingKey::from_bytes(public) {
        Ok(key) => key.verify(message, &signature).is_ok(),
        Err(_) => false,
    }
}

/// Trusted: `sha2::Sha256::digest` is a function of the bytes alone, 32 bytes
/// long. The digest counts its input in bits with 64 bits.
#[verifier::external_body]
fn sha2_digest(data: &[u8]) -> (r: [u8; 32])
    requires
        data@.len() < 0x2000_0000_0000_0000,
    ensures
        r@ == sha256(data@),
{
    sha2::Sha256::digest(data).into()
}

/// Trusted: `rand::rngs::OsRng::fill_bytes` fills as many bytes as asked for.
/// What they are is left to the operating system; where that has no random
/// numbers to give, the call does not return.
#[verifier::external_body]
fn os_random(n: usize) -> (r: Vec<u8>)
    ensures
        r@.len() == n,
{
    let mut bytes = vec![0u8; n];
    rand::rngs::OsRng.fill_bytes(&mut bytes);
    bytes
}

/// Fresh random bytes.
pub fn random_bytes(n: usize) -> (r: Vec<u8>)
    ensures
        r@.len() == n,
{
    os_random(n)
}

/// The bytes as an array, where there are 32 of them.
pub fn array_of_32(bytes: &[u8]) -> (r: Option<[u8; 32]>)
    ensures
        match r {
            Some(a) => a@ == bytes@,
            None => bytes@.len() != 32,
        },
{
    if bytes.len() != 32 {
        return None;
    }
    let mut a = [0u8; 32];
    let mut i: usize = 0;
    while i < 32
        invariant
            i <= 32,
            bytes@.len() == 32,
            forall|j: int| 0 <= j < i ==> a@[j] == bytes@[j],
        decreases 32 - i,
    {
        a[i] = bytes[i];
        i += 1;
    }
    assert(a@ =~= bytes@);
    Some(a)
}

/// The bytes as an array, where there are 64 of them.
fn array_of_64(bytes: &[u8]) -> (r: Option<[u8; 64]>)
    ensures
        match r {
            Some(a) => a@ == bytes@,
            None => bytes@.len() != 64,
        },
{
    if bytes.len() != 64 {
        return None;
    }
    let mut a = [0u8; 64];
    let mut i: usize = 0;
    while i < 64
        invariant
            i <= 64,
            bytes@.len() == 64,
            forall|j: int| 0 <= j < i ==> a@[j] == bytes@[j],
        decreases 64 - i,
    {
        a[i] = bytes[i];
        i += 1;
    }
    assert(a@ =~= bytes@);
    Some(a)
}

/// Fresh random bytes for a key. Which they are is left to the operating system.
pub fn random_key() -> (r: [u8; 32])
    ensures
        r@.len() == 32,
{
    let bytes: Vec<u8> = os_random(32);
    match array_of_32(bytes.as_slice()) {
        Some(a) => a,
        None => [0u8; 32],
    }
}

/// An Ed25519 key to sign with.
pub struct SigningKey {
    secret: [u8; 32],
}

impl SigningKey {
    /// The secret bytes of the key.
    pub closed spec fn secret(&self) -> Seq<u8> {
        self.secret@
    }

    /// The key with the given secret bytes.
    pub fn from_bytes(secret: &[u8; 32]) -> (key: Self)
        ensures
            key.secret() == secret@,
    {
        SigningKey { secret: *secret }
    }

    /// The public key that belongs to this one.
    pub fn public_bytes(&self) -> (r: [u8; 32])
        ensures
            r@ == ed25519_public(self.secret()),
    {
        dalek_public(&self.secret)
    }
}

/// Signs a message. The signature holds under the public key of `key`.
pub fn sign(key: &SigningKey, message: &[u8]) -> (r: Vec<u8>)
    ensures
        r@ == ed25519_signature(key.secret(), message@),
        r@.len() == 64,
        is_signature(ed25519_public(key.secret()), message@, r@),
{
    let public = dalek_public(&key.secret);
    let signature = dalek_sign(&key.secret, message);
    assert(public@.len() == 32);
    text::copy_bytes(signature.as_slice())
}

/// Whether `signature` is one over `message` under the public key `public`:
/// both have the length they should have, and the signature holds.
pub open spec fn is_signature(public: Seq<u8>, message: Seq<u8>, signature: Seq<u8>) -> bool {
    public.len() == 32 && signature.len() == 64 && ed25519_verifies(public, message, signature)
}

/// Whether `signature` is one over `message` under the public key `public`.
pub fn verify(public: &[u8], message: &[u8], signature: &[u8]) -> (r: bool)
    ensures
        r == is_signature(public@, message@, signature@),
{
    match (array_of_32(public), array_of_64(signature)) {
        (Some(key), Some(sig)) => dalek_verify(&key, message, &sig),
        _ => false,
    }
}

/// The fingerprint of bytes.
pub fn hash(data: &[u8]) -> (r: [u8; 32])
    requires
        data@.len() < 0x2000_0000_0000_0000,
    ensures
        r@ == sha256(data@),
{
    sha2_digest(data)
}

/// The fingerprint of bytes, written in base sixteen.
pub fn hash_hex(data: &[u8]) -> (r: String)
    requires
        data@.len() < 0x2000_0000_0000_0000,
    ensures
        r@ == text::hex(sha256(data@)),
        r@.len() == 64,
{
    let digest = sha2_digest(data);
    proof {
        hex_is_twice_as_long(digest@);
    }
    text::hex_of(digest.as_slice())
}

/// Bytes written in base sixteen.
pub fn to_hex(data: &[u8]) -> (r: String)
    ensures
        r@ == text::hex(data@),
{
    text::hex_of(data)
}

/// Every byte takes two digits.
pub proof fn hex_is_twice_as_long(bytes: Seq<u8>)
    ensures
        text::hex(bytes).len() == 2 * bytes.len(),
    decreases bytes.len(),
{
    if bytes.len() > 0 {
        hex_is_twice_as_long(bytes.drop_last());
    }
}

} // verus!
