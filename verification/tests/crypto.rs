use diffuse_daemon::crypto::{hash, hash_hex, random_key, sign, to_hex, verify, SigningKey};

fn make_key() -> SigningKey {
    SigningKey::from_bytes(&random_key())
}

#[test]
fn valid_signature_verifies() {
    let key = make_key();
    let pubkey = key.public_bytes();
    let message = b"peer announcement: node holds slice 0:12";

    let signature = sign(&key, message);
    assert!(verify(&pubkey, message, &signature), "valid signature must verify");
}

#[test]
fn tampered_message_fails() {
    let key = make_key();
    let pubkey = key.public_bytes();
    let message = b"node holds slice 0:12";

    let signature = sign(&key, message);
    let tampered = b"node holds slice 0:24";
    assert!(
        !verify(&pubkey, tampered, &signature),
        "signature must not verify for a modified message"
    );
}

#[test]
fn wrong_key_fails() {
    let key = make_key();
    let attacker = make_key();
    let attacker_pubkey = attacker.public_bytes();
    let message = b"node holds slice 0:12";

    let signature = sign(&key, message);
    assert!(
        !verify(&attacker_pubkey, message, &signature),
        "signature must not verify under a different public key"
    );
}

#[test]
fn garbage_signature_fails() {
    let key = make_key();
    let pubkey = key.public_bytes();
    let message = b"node holds slice 0:12";

    let garbage = vec![0u8; 64];
    assert!(!verify(&pubkey, message, &garbage), "garbage signature must fail");

    let too_short = vec![1u8; 10];
    assert!(!verify(&pubkey, message, &too_short), "malformed signature must fail safely");
}

#[test]
fn hash_is_deterministic() {
    let data = b"model shard weights";
    assert_eq!(hash(data), hash(data), "hash must be deterministic");
    assert_eq!(hash_hex(data).len(), 64, "sha256 hex is 64 chars");

    let other = b"different data";
    assert_ne!(hash(data), hash(other), "different data yields different hash");
}

#[test]
fn the_digest_of_nothing_is_the_known_one() {
    assert_eq!(
        hash_hex(b""),
        "e3b0c44298fc1c149afbf4c8996fb92427ae41e4649b934ca495991b7852b855"
    );
    assert_eq!(
        hash_hex(b"abc"),
        "ba7816bf8f01cfea414140de5dae2223b00361a396177a9cb410ff61f20015ad"
    );
}

#[test]
fn the_first_test_vector_of_the_signature_scheme_holds() {
    let secret: [u8; 32] = [
        0x9d, 0x61, 0xb1, 0x9d, 0xef, 0xfd, 0x5a, 0x60, 0xba, 0x84, 0x4a, 0xf4, 0x92, 0xec, 0x2c,
        0xc4, 0x44, 0x49, 0xc5, 0x69, 0x7b, 0x32, 0x69, 0x19, 0x70, 0x3b, 0xac, 0x03, 0x1c, 0xae,
        0x7f, 0x60,
    ];
    let key = SigningKey::from_bytes(&secret);
    assert_eq!(
        to_hex(&key.public_bytes()),
        "d75a980182b10ab7d54bfed3c964073a0ee172f3daa62325af021a68f707511a"
    );
    assert_eq!(
        to_hex(&sign(&key, b"")),
        "e5564300c360ac729086e2cc806e828a84877f1eb8e5d974d873e065224901555fb8821590a33bacc61e39701cf9b46bd25bf5f0595bbe24655141438e7a100b"
    );
}

#[test]
fn a_key_of_another_length_verifies_nothing() {
    let key = make_key();
    let signature = sign(&key, b"m");
    assert_eq!(signature.len(), 64);
    assert!(!verify(&[1, 2, 3], b"m", &signature));
    assert!(!verify(&[], b"m", &signature));
}

#[test]
fn hexadecimal_digits_are_two_per_byte() {
    assert_eq!(to_hex(&[0, 1, 0xab, 0xff]), "0001abff");
    assert_eq!(to_hex(&[]), "");
}

#[test]
fn keys_are_drawn_anew() {
    assert_ne!(random_key(), random_key());
}
