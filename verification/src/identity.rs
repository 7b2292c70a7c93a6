//! Who a node is: a key to sign with, and a key to exchange secrets with.

use vstd::prelude::*;

use crate::crypto::{random_key, to_hex, SigningKey};
use crate::text;
use crate::transport::KeyExchange;

verus! {

/// The keys of a node.
pub struct Identity {
    pub signing_key: SigningKey,
    pub key_exchange: KeyExchange,
}

impl Identity {
    /// The identity with the given secret bytes.
    pub fn from_secrets(signing: &[u8; 32], exchange: [u8; 32]) -> (r: Self)
        ensures
            r.signing_key.secret() == signing@,
            r.key_exchange.secret() == exchange@,
    {
        Identity {
            signing_key: SigningKey::from_bytes(signing),
            key_exchange: KeyExchange::from_secret(exchange),
        }
    }

    /// An identity with fresh random keys.
    pub fn generate() -> (r: Self)
        ensures
            r.signing_key.secret().len() == 32,
            r.key_exchange.secret().len() == 32,
    {
        let signing = random_key();
        Identity::from_secrets(&signing, random_key())
    }

    /// The node id: the public key of the key to sign with.
    pub open spec fn node_id(&self) -> Seq<u8> {
        crate::crypto::ed25519_public(self.signing_key.secret())
    }

    /// The node id, written in base sixteen.
    pub fn public_hex(&self) -> (r: String)
        ensures
            r@ == text::hex(self.node_id()),
            r@.len() == 64,
    {
        let public = self.signing_key.public_bytes();
        proof {
            crate::crypto::hex_is_twice_as_long(public@);
        }
        to_hex(public.as_slice())
    }

    /// The first sixteen digits of the node id.
    pub fn short_id(&self) -> (r: String)
        ensures
            r@ == text::hex(self.node_id()).take(16),
    {
        let full: Vec<char> = text::chars_of(self.public_hex().as_str());
        text::slice_of(&full, 0, 16)
    }

    /// The node id.
    pub fn signing_public(&self) -> (r: [u8; 32])
        ensures
            r@ == self.node_id(),
    {
        self.signing_key.public_bytes()
    }

    /// The public bytes of the key to exchange secrets with.
    pub fn kx_public(&self) -> (r: [u8; 32])
        ensures
            r@ == self.key_exchange.public(),
    {
        self.key_exchange.public_bytes()
    }
}

} // verus!
