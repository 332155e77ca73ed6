use std::collections::HashSet;

use passman::crypto::{derive_key, open_sealed, seal};
use passman::errors::StoreError;

#[test]
fn derive_key_is_deterministic_sha256() {
    let k1 = derive_key("abc");
    let k2 = derive_key("abc");
    assert_eq!(k1, k2);
    // Known SHA-256 vector: the digest of "abc" starts ba 78 16 bf.
    assert_eq!(k1[0], 0xba);
    assert_eq!(k1[1], 0x78);
    assert_eq!(k1[2], 0x16);
    assert_eq!(k1[3], 0xbf);
}

#[test]
fn derive_key_differs_per_passphrase() {
    assert_ne!(derive_key("abc"), derive_key("abd"));
    assert_ne!(derive_key(""), derive_key(" "));
}

#[test]
fn seal_open_round_trip() {
    let key = derive_key("master");
    let plaintext = b"top secret payload".to_vec();
    let sb = seal(&key, &plaintext).unwrap();
    assert_eq!(sb.nonce.len(), 12);
    let back = open_sealed(&key, &sb.nonce, &sb.ciphertext).unwrap();
    assert_eq!(back, plaintext);
}

#[test]
fn seal_transforms_and_appends_tag() {
    let key = derive_key("master");
    let plaintext = b"sixteen byte msg".to_vec();
    let sb = seal(&key, &plaintext).unwrap();
    assert_eq!(sb.ciphertext.len(), plaintext.len() + 16);
    assert_ne!(&sb.ciphertext[..plaintext.len()], &plaintext[..]);
}

#[test]
fn wrong_key_fails_authentication() {
    let k1 = derive_key("right horse battery staple");
    let k2 = derive_key("wrong horse battery staple");
    let sb = seal(&k1, b"attack at dawn").unwrap();
    let r = open_sealed(&k2, &sb.nonce, &sb.ciphertext);
    assert_eq!(r, Err(StoreError::AuthenticationError));
}

#[test]
fn tamper_any_single_bit_is_detected() {
    let key = derive_key("master");
    let sb = seal(&key, b"integrity matters").unwrap();
    for i in 0..sb.ciphertext.len() {
        for bit in 0..8 {
            let mut ct = sb.ciphertext.clone();
            ct[i] ^= 1u8 << bit;
            let r = open_sealed(&key, &sb.nonce, &ct);
            assert_eq!(r, Err(StoreError::AuthenticationError));
        }
    }
}

#[test]
fn nonces_are_unique_across_many_seals() {
    let key = derive_key("master");
    let mut seen: HashSet<Vec<u8>> = HashSet::new();
    for _ in 0..10_000 {
        let sb = seal(&key, b"x").unwrap();
        assert_eq!(sb.nonce.len(), 12);
        assert!(seen.insert(sb.nonce.clone()), "nonce repeated");
    }
    assert_eq!(seen.len(), 10_000);
}

#[test]
fn error_messages_are_distinct() {
    let msgs = [
        StoreError::FormatError.message(),
        StoreError::AuthenticationError.message(),
        StoreError::AlreadyExists.message(),
        StoreError::NotFound.message(),
        StoreError::IoError.message(),
    ];
    for i in 0..msgs.len() {
        assert!(!msgs[i].is_empty());
        for j in 0..i {
            assert_ne!(msgs[i], msgs[j]);
        }
    }
}
