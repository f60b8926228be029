//! Envelope codec behaviour through the public interface.

use ciphermount::crypto::{decrypt, encrypt, encrypt_then_decrypt, CodecError};

#[test]
fn encrypt_decrypt_round_trip() {
    let key = [0x42u8; 32];
    let plaintext = b"The quick brown fox jumps over the lazy dog";
    let ciphertext = encrypt(&key, plaintext).unwrap();
    let decrypted = decrypt(&key, &ciphertext).unwrap();
    assert_eq!(decrypted.as_slice(), plaintext);
}

#[test]
fn wrong_key_returns_error() {
    let key1 = [0x01u8; 32];
    let key2 = [0x02u8; 32];
    let ciphertext = encrypt(&key1, b"secret data").unwrap();
    assert!(decrypt(&key2, &ciphertext).is_err());
}

#[test]
fn empty_plaintext_round_trip() {
    let key = [0xFFu8; 32];
    let ciphertext = encrypt(&key, b"").unwrap();
    let decrypted = decrypt(&key, &ciphertext).unwrap();
    assert_eq!(decrypted, b"");
}

#[test]
fn ciphertext_is_nondeterministic() {
    let key = [0xABu8; 32];
    let pt = b"same input";
    let ct1 = encrypt(&key, pt).unwrap();
    let ct2 = encrypt(&key, pt).unwrap();
    assert_ne!(ct1, ct2, "Each encryption must use a unique nonce");
}

#[test]
fn truncated_ciphertext_fails() {
    let key = [0x10u8; 32];
    let bad = vec![0u8; 10]; // too short: needs at least nonce(12) + tag(16)
    assert!(decrypt(&key, &bad).is_err());
}

#[test]
fn blob_is_plaintext_plus_28_bytes() {
    let key = [0x42u8; 32];
    let blob = encrypt(&key, b"Hello, CipherMount!").unwrap();
    assert_eq!(blob.len(), 47);
    let decrypted = decrypt(&key, &blob).unwrap();
    assert_eq!(decrypted, b"Hello, CipherMount!");
}

#[test]
fn empty_plaintext_blob_is_exactly_28_bytes() {
    let key = [0x42u8; 32];
    let blob = encrypt(&key, b"").unwrap();
    assert_eq!(blob.len(), 28);
}

#[test]
fn too_short_error_kind() {
    let key = [0x42u8; 32];
    assert_eq!(decrypt(&key, &[]), Err(CodecError::TooShort));
    assert_eq!(decrypt(&key, &vec![0u8; 27]), Err(CodecError::TooShort));
}

#[test]
fn wrong_key_error_kind_is_auth_failed() {
    let key1 = [0x01u8; 32];
    let key2 = [0x02u8; 32];
    let blob = encrypt(&key1, b"secret").unwrap();
    assert_eq!(decrypt(&key2, &blob), Err(CodecError::AuthFailed));
}

#[test]
fn any_single_bit_flip_fails() {
    let key = [0x42u8; 32];
    let blob = encrypt(&key, b"authenticated payload").unwrap();
    for i in 0..blob.len() {
        for bit in 0..8u8 {
            let mut tampered = blob.clone();
            tampered[i] ^= 1u8 << bit;
            assert_eq!(
                decrypt(&key, &tampered),
                Err(CodecError::AuthFailed),
                "flip of bit {} in byte {} must be detected",
                bit,
                i
            );
        }
    }
}

#[test]
fn round_trip_law_holds_on_sample() {
    let key = [0x42u8; 32];
    let recovered = encrypt_then_decrypt(&key, b"law witness").unwrap();
    assert_eq!(recovered, b"law witness");
}
