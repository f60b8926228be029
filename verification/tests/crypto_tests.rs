use ciphermount::crypto::{decrypt, encrypt};

#[test]
fn round_trip() {
    let key = [0x42u8; 32];
    let plaintext = b"Hello, CipherMount!";
    let ciphertext = encrypt(&key, plaintext).unwrap();
    let decrypted = decrypt(&key, &ciphertext).unwrap();
    assert_eq!(decrypted, plaintext);
}

#[test]
fn wrong_key_fails() {
    let key1 = [0x01u8; 32];
    let key2 = [0x02u8; 32];
    let ciphertext = encrypt(&key1, b"secret").unwrap();
    assert!(decrypt(&key2, &ciphertext).is_err());
}

#[test]
fn different_nonce_each_time() {
    let key = [0xAAu8; 32];
    let pt = b"same plaintext";
    let ct1 = encrypt(&key, pt).unwrap();
    let ct2 = encrypt(&key, pt).unwrap();
    assert_ne!(ct1, ct2); // different nonces -> different ciphertext
}
