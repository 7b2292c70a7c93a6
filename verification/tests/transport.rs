use diffuse_daemon::transport::{
    decrypt, encrypt, encrypt_with_nonce, KeyExchange, TransportError,
};

#[test]
fn two_nodes_derive_same_secret_without_transmitting_it() {
    let alice = KeyExchange::generate();
    let bob = KeyExchange::generate();

    let alice_secret = alice.shared_secret(&bob.public_bytes());
    let bob_secret = bob.shared_secret(&alice.public_bytes());

    assert_eq!(
        alice_secret, bob_secret,
        "both nodes must derive the identical shared secret"
    );
}

#[test]
fn third_party_cannot_derive_the_secret() {
    let alice = KeyExchange::generate();
    let bob = KeyExchange::generate();
    let eve = KeyExchange::generate();

    let real_secret = alice.shared_secret(&bob.public_bytes());
    let eve_attempt = eve.shared_secret(&bob.public_bytes());

    assert_ne!(
        real_secret, eve_attempt,
        "an eavesdropper with only public keys cannot derive the shared secret"
    );
}

#[test]
fn message_encrypted_by_one_is_readable_by_the_other() {
    let alice = KeyExchange::generate();
    let bob = KeyExchange::generate();

    let alice_secret = alice.shared_secret(&bob.public_bytes());
    let bob_secret = bob.shared_secret(&alice.public_bytes());

    let plaintext = b"activation tensor bytes for slice 12:24";
    let ciphertext = encrypt(&alice_secret, plaintext).expect("encrypt");

    assert_ne!(&ciphertext[..], &plaintext[..], "wire data must be encrypted");

    let recovered = decrypt(&bob_secret, &ciphertext).expect("decrypt");
    assert_eq!(recovered, plaintext, "the peer must recover the exact plaintext");
}

#[test]
fn eavesdropper_cannot_decrypt() {
    let alice = KeyExchange::generate();
    let bob = KeyExchange::generate();
    let eve = KeyExchange::generate();

    let alice_secret = alice.shared_secret(&bob.public_bytes());
    let eve_secret = eve.shared_secret(&bob.public_bytes());

    let ciphertext = encrypt(&alice_secret, b"private prompt activations").expect("encrypt");

    let result = decrypt(&eve_secret, &ciphertext);
    assert!(
        result.is_err(),
        "an eavesdropper with the wrong secret must fail to decrypt"
    );
}

#[test]
fn tampered_ciphertext_is_rejected() {
    let alice = KeyExchange::generate();
    let bob = KeyExchange::generate();

    let secret = alice.shared_secret(&bob.public_bytes());
    let mut ciphertext = encrypt(&secret, b"integrity matters").expect("encrypt");

    let last = ciphertext.len() - 1;
    ciphertext[last] ^= 0xff;

    let result = decrypt(&secret, &ciphertext);
    assert!(
        result.is_err(),
        "AEAD must detect tampering and refuse to decrypt"
    );
}

#[test]
fn the_nonce_stands_before_the_ciphertext() {
    let key = [7u8; 32];
    let nonce = [3u8; 12];
    let sealed = encrypt_with_nonce(&key, &nonce, b"plain").unwrap();
    assert_eq!(sealed.len(), 12 + 5 + 16);
    assert_eq!(&sealed[..12], &nonce[..]);
    assert_eq!(decrypt(&key, &sealed).unwrap(), b"plain");
}

#[test]
fn the_same_text_is_sealed_differently_each_time() {
    let key = [7u8; 32];
    assert_ne!(encrypt(&key, b"x").unwrap(), encrypt(&key, b"x").unwrap());
}

#[test]
fn what_is_too_short_for_a_nonce_is_told_apart_from_what_is_forged() {
    let key = [7u8; 32];
    assert_eq!(decrypt(&key, &[0; 11]), Err(TransportError::Truncated));
    assert_eq!(decrypt(&key, &[0; 40]), Err(TransportError::Rejected));
    assert!(!TransportError::Truncated.message().is_empty());
    assert!(!TransportError::Rejected.message().is_empty());
}

#[test]
fn the_key_agreement_is_the_known_one() {
    let alice: [u8; 32] = [
        0x77, 0x07, 0x6d, 0x0a, 0x73, 0x18, 0xa5, 0x7d, 0x3c, 0x16, 0xc1, 0x72, 0x51, 0xb2, 0x66,
        0x45, 0xdf, 0x4c, 0x2f, 0x87, 0xeb, 0xc0, 0x99, 0x2a, 0xb1, 0x77, 0xfb, 0xa5, 0x1d, 0xb9,
        0x2c, 0x2a,
    ];
    let key = KeyExchange::from_secret(alice);
    assert_eq!(
        diffuse_daemon::crypto::to_hex(&key.public_bytes()),
        "8520f0098930a754748b7ddcb43ef75a0dbf3a0d26381af4eba4a98eaa9b4e6a"
    );
}
