//! What two nodes say to each other in secret: an X25519 key exchange, and
//! messages sealed with ChaCha20-Poly1305.

use chacha20poly1305::aead::Aead;
use chacha20poly1305::KeyInit;
use vstd::prelude::*;

use crate::crypto::{random_bytes, random_key};
use crate::text;

verus! {

/// The public key that belongs to an X25519 secret key.
pub uninterp spec fn x25519_public(secret: Seq<u8>) -> Seq<u8>;

/// What the holder of an X25519 secret key shares with the owner of a public key.
pub uninterp spec fn x25519_shared(secret: Seq<u8>, public: Seq<u8>) -> Seq<u8>;

/// A message sealed with ChaCha20-Poly1305 under a key and a nonce: the
/// encrypted bytes, and behind them the tag.
pub uninterp spec fn sealed(key: Seq<u8>, nonce: Seq<u8>, plain: Seq<u8>) -> Seq<u8>;

/// What sealed bytes open to under a key and a nonce, where their tag holds.
pub uninterp spec fn opened(key: Seq<u8>, nonce: Seq<u8>, sealed: Seq<u8>) -> Option<Seq<u8>>;

/// Trusted: `x25519_dalek::PublicKey::from` is a function of the secret key
/// alone, 32 bytes long.
#[verifier::external_body]
fn dalek_public(secret: &[u8; 32]) -> (r: [u8; 32])
    ensures
        r@ == x25519_public(secret@),
{
    x25519_dalek::PublicKey::from(&x25519_dalek::StaticSecret::from(*secret)).to_bytes()
}

/// Trusted: `x25519_dalek::StaticSecret::diffie_hellman` is a function of the
/// secret key and the other side's public key alone, 32 bytes long; and the
/// other side, from its secret key and this side's public key, gets the same.
#[verifier::external_body]
fn dalek_shared(secret: &[u8; 32], public: &[u8; 32]) -> (r: [u8; 32])
    ensures
        r@ == x25519_shared(secret@, public@),
        forall|other: Seq<u8>|
            other.len() == 32 && public@ == #[trigger] x25519_public(other) ==> r@ == x25519_shared(
                other,
                x25519_public(secret@),
            ),
{
    let theirs = x25519_dalek::PublicKey::from(*public);
    x25519_dalek::StaticSecret::from(*secret).diffie_hellman(&theirs).to_bytes()
}

/// Trusted: `chacha20poly1305::ChaCha20Poly1305::encrypt` is a function of the
/// key, the nonce and the message alone, succeeds on a message of at most
/// 2^32 - 2 blocks of 64 bytes, adds a tag of 16 bytes, and decrypting what it
/// gives yields the message.
#[verifier::external_body]
fn aead_seal(key: &[u8; 32], nonce: &[u8], plain: &[u8]) -> (r: Option<Vec<u8>>)
    requires
        nonce@.len() == 12,
        plain@.len() <= 0x3f_ffff_ff80,
    ensures
        r is Some,
        r.unwrap()@ == sealed(key@, nonce@, plain@),
        r.unwrap()@.len() == plain@.len() + 16,
        opened(key@, nonce@, r.unwrap()@) == Some(plain@),
{
    let cipher = chacha20poly1305::ChaCha20Poly1305::new(chacha20poly1305::Key::from_slice(key));
    cipher.encrypt(chacha20poly1305::Nonce::from_slice(nonce), plain).ok()
}

/// Trusted: `chacha20poly1305::ChaCha20Poly1305::decrypt` is a function of the
/// key, the nonce and the sealed bytes alone, and what it yields is 16 bytes
/// shorter than these.
#[verifier::external_body]
fn aead_open(key: &[u8; 32], nonce: &[u8], sealed: &[u8]) -> (r: Option<Vec<u8>>)
    requires
        nonce@.len() == 12,
        sealed@.len() <= 0x3f_ffff_ff90,
    ensures
        match r {
            Some(p) => opened(key@, nonce@, sealed@) == Some(p@) && p@.len() + 16 == sealed@.len(),
            None => opened(key@, nonce@, sealed@) is None,
        },
{
    let cipher = chacha20poly1305::ChaCha20Poly1305::new(chacha20poly1305::Key::from_slice(key));
    cipher.decrypt(chacha20poly1305::Nonce::from_slice(nonce), sealed).ok()
}

/// One side's half of a key exchange.
pub struct KeyExchange {
    secret: [u8; 32],
}

impl KeyExchange {
    /// The secret bytes of this half.
    pub closed spec fn secret(&self) -> Seq<u8> {
        self.secret@
    }

    /// The public bytes of this half.
    pub open spec fn public(&self) -> Seq<u8> {
        x25519_public(self.secret())
    }

    /// The half with the given secret bytes.
    pub fn from_secret(secret: [u8; 32]) -> (r: Self)
        ensures
            r.secret() == secret@,
            r.secret().len() == 32,
    {
        KeyExchange { secret }
    }

    /// A half with fresh random secret bytes. Which they are is left to the
    /// operating system.
    pub fn generate() -> (r: Self)
        ensures
            r.secret().len() == 32,
    {
        KeyExchange::from_secret(random_key())
    }

    /// The public bytes, which the other side needs.
    pub fn public_bytes(&self) -> (r: [u8; 32])
        ensures
            r@ == self.public(),
    {
        dalek_public(&self.secret)
    }

    /// The secret shared with the owner of a public key. Where that key belongs
    /// to a secret one, its owner derives the same from this side's public key.
    pub fn shared_secret(&self, their_public: &[u8; 32]) -> (r: [u8; 32])
        ensures
            r@ == x25519_shared(self.secret(), their_public@),
            forall|other: Seq<u8>|
                other.len() == 32 && their_public@ == #[trigger] x25519_public(other) ==> r@
                    == x25519_shared(other, self.public()),
    {
        dalek_shared(&self.secret, their_public)
    }
}

/// Why a message could not be sealed or opened.
#[derive(Debug, Clone, Copy, PartialEq, Eq, Structural)]
pub enum TransportError {
    /// The message is longer than the cipher can seal under one nonce.
    TooLong,
    /// The bytes are too short to hold a nonce.
    Truncated,
    /// The tag does not hold: other key, other bytes.
    Rejected,
}

impl TransportError {
    /// What went wrong, in words.
    pub open spec fn text(self) -> Seq<char> {
        match self {
            TransportError::TooLong => "message too long to encrypt"@,
            TransportError::Truncated => "ciphertext too short"@,
            TransportError::Rejected => "decryption failed"@,
        }
    }

    /// What went wrong, in words.
    pub fn message(&self) -> (s: String)
        ensures
            s@ == self.text(),
    {
        match self {
            TransportError::TooLong => "message too long to encrypt".to_string(),
            TransportError::Truncated => "ciphertext too short".to_string(),
            TransportError::Rejected => "decryption failed".to_string(),
        }
    }
}

/// The longest message that the cipher seals under one nonce.
pub open spec fn longest_message() -> nat {
    0x3f_ffff_ff80
}

/// What an encrypted message decrypts to under a key: it holds a nonce of 12
/// bytes, and behind it the sealed bytes.
pub open spec fn decryption(key: Seq<u8>, data: Seq<u8>) -> Result<Seq<u8>, TransportError> {
    if data.len() < 12 {
        Err(TransportError::Truncated)
    } else if data.len() - 12 > longest_message() + 16 {
        Err(TransportError::TooLong)
    } else {
        match opened(key, data.take(12), data.skip(12)) {
            Some(plain) => Ok(plain),
            None => Err(TransportError::Rejected),
        }
    }
}

/// Encrypts a message under a key and a nonce. It fails exactly on a message
/// that is too long, and what it gives decrypts to the message.
pub fn encrypt_with_nonce(key: &[u8; 32], nonce: &[u8; 12], plain: &[u8]) -> (r: Result<
    Vec<u8>,
    TransportError,
>)
    ensures
        match r {
            Ok(c) => plain@.len() <= longest_message() && c@ == nonce@ + sealed(
                key@,
                nonce@,
                plain@,
            ) && c@.len() == plain@.len() + 28 && decryption(key@, c@) == Ok::<
                Seq<u8>,
                TransportError,
            >(plain@),
            Err(e) => plain@.len() > longest_message() && e == TransportError::TooLong,
        },
{
    if plain.len() as u64 > 0x3f_ffff_ff80 {
        return Err(TransportError::TooLong);
    }
    match aead_seal(key, nonce.as_slice(), plain) {
        Some(c) => {
            let mut out: Vec<u8> = text::copy_bytes(nonce.as_slice());
            text::append_bytes(&mut out, c.as_slice());
            proof {
                assert(out@.take(12) =~= nonce@);
                assert(out@.skip(12) =~= c@);
            }
            Ok(out)
        },
        None => Err(TransportError::TooLong),
    }
}

fn array_of_12(bytes: &Vec<u8>) -> (r: [u8; 12])
    requires
        bytes@.len() == 12,
    ensures
        r@ == bytes@,
{
    let mut a = [0u8; 12];
    let mut i: usize = 0;
    while i < 12
        invariant
            i <= 12,
            bytes@.len() == 12,
            forall|j: int| 0 <= j < i ==> a@[j] == bytes@[j],
        decreases 12 - i,
    {
        a[i] = bytes[i];
        i += 1;
    }
    assert(a@ =~= bytes@);
    a
}

/// Encrypts a message under a key and a fresh random nonce, which it puts in
/// front. It fails exactly on a message that is too long, and what it gives
/// decrypts to the message.
pub fn encrypt(key: &[u8; 32], plain: &[u8]) -> (r: Result<Vec<u8>, TransportError>)
    ensures
        match r {
            Ok(c) => plain@.len() <= longest_message() && c@.len() == plain@.len() + 28 && c@.skip(
                12,
            ) == sealed(key@, c@.take(12), plain@) && decryption(key@, c@) == Ok::<
                Seq<u8>,
                TransportError,
            >(plain@),
            Err(e) => plain@.len() > longest_message() && e == TransportError::TooLong,
        },
{
    let nonce = array_of_12(&random_bytes(12));
    match encrypt_with_nonce(key, &nonce, plain) {
        Ok(c) => {
            assert(c@.take(12) =~= nonce@);
            assert(c@.skip(12) =~= sealed(key@, nonce@, plain@));
            Ok(c)
        },
        Err(e) => Err(e),
    }
}

/// Decrypts a message under a key.
pub fn decrypt(key: &[u8; 32], data: &[u8]) -> (r: Result<Vec<u8>, TransportError>)
    ensures
        match r {
            Ok(plain) => decryption(key@, data@) == Ok::<Seq<u8>, TransportError>(plain@)
                && plain@.len() + 28 == data@.len(),
            Err(e) => decryption(key@, data@) == Err::<Seq<u8>, TransportError>(e),
        },
{
    if data.len() < 12 {
        return Err(TransportError::Truncated);
    }
    if (data.len() - 12) as u64 > 0x3f_ffff_ff90 {
        return Err(TransportError::TooLong);
    }
    let nonce: Vec<u8> = text::slice_bytes(data, 0, 12);
    let body: Vec<u8> = text::slice_bytes(data, 12, data.len());
    assert(data@.take(12) =~= nonce@);
    assert(data@.skip(12) =~= body@);
    match aead_open(key, nonce.as_slice(), body.as_slice()) {
        Some(plain) => Ok(plain),
        None => Err(TransportError::Rejected),
    }
}

/// A message begins with its nonce: with the 12 bytes of that in front, sealed bytes
/// decrypt to what they open to under the nonce, and are rejected where they do not open;
/// and what does not hold a nonce holds no message.
pub proof fn the_nonce_goes_in_front(key: Seq<u8>, nonce: Seq<u8>, sealed: Seq<u8>)
    requires
        nonce.len() == 12,
        sealed.len() <= longest_message() + 16,
    ensures
        match opened(key, nonce, sealed) {
            Some(plain) => decryption(key, nonce + sealed) == Ok::<Seq<u8>, TransportError>(plain),
            None => decryption(key, nonce + sealed) == Err::<Seq<u8>, TransportError>(
                TransportError::Rejected,
            ),
        },
        forall|data: Seq<u8>|
            data.len() < 12 ==> #[trigger] decryption(key, data) == Err::<Seq<u8>, TransportError>(
                TransportError::Truncated,
            ),
        forall|data: Seq<u8>|
            data.len() > longest_message() + 28 ==> #[trigger] decryption(key, data) == Err::<
                Seq<u8>,
                TransportError,
            >(TransportError::TooLong),
{
    assert((nonce + sealed).take(12) =~= nonce);
    assert((nonce + sealed).skip(12) =~= sealed);
}

} // verus!
