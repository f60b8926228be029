//! AES-256-GCM envelope codec.
//!
//! On-disk layout of every encrypted file:
//! `[ 12-byte nonce ][ ciphertext ][ 16-byte tag ]`
//!
//! The nonce is sampled fresh from the system CSPRNG on every encryption, so
//! encrypting the same plaintext twice produces different blobs.

use vstd::prelude::*;
use vstd::slice::slice_subrange;
use ring::aead::{Aad, LessSafeKey, Nonce, UnboundKey, AES_256_GCM};
use ring::rand::{SecureRandom, SystemRandom};

verus! {

/// Bytes prepended to every encrypted file on disk (the nonce).
pub const HEADER_LEN: usize = 12;

/// Bytes appended to every encrypted file on disk (the authentication tag).
pub const TAG_LEN: usize = 16;

/// Shortest well-formed envelope: nonce and tag around an empty plaintext.
pub const MIN_BLOB_LEN: usize = 28;

/// Why an envelope could not be produced or opened.
#[derive(Clone, Copy, Debug, PartialEq, Eq, Structural)]
pub enum CodecError {
    /// The input is shorter than a nonce plus a tag.
    TooShort,
    /// The authentication tag does not verify: wrong key or modified blob.
    AuthFailed,
    /// The system RNG or the cipher itself failed.
    CryptoFailed,
}

/// The ciphertext-with-tag that AES-256-GCM sealing produces for a given key,
/// nonce and plaintext. The real computation takes pages to state, but it is a
/// function of exactly these three arguments, so it is given a name and the
/// trusted items below say how sealing and opening relate through it.
pub uninterp spec fn gcm_seal(key: Seq<u8>, nonce: Seq<u8>, plaintext: Seq<u8>) -> Seq<u8>;

/// `blob` is a well-formed envelope that carries `plaintext` under `key`:
/// long enough for a nonce and a tag, and its body is exactly the sealing of
/// `plaintext` under `key` and the nonce the blob itself carries.
pub open spec fn is_envelope_for(key: Seq<u8>, blob: Seq<u8>, plaintext: Seq<u8>) -> bool {
    &&& blob.len() >= MIN_BLOB_LEN
    &&& blob.subrange(HEADER_LEN as int, blob.len() as int) == gcm_seal(
        key,
        blob.subrange(0, HEADER_LEN as int),
        plaintext,
    )
}

/// Relies on ring's `SystemRandom` (`ring::rand::SecureRandom::fill`): fills
/// the buffer from the system CSPRNG. Nothing is promised of the values, only
/// that the whole 12-byte buffer is returned; `None` on RNG failure.
#[verifier::external_body]
fn fresh_nonce() -> (r: Option<Vec<u8>>)
    ensures
        r matches Some(n) ==> n@.len() == HEADER_LEN,
{
    let rng = SystemRandom::new();
    let mut nonce = vec![0u8; HEADER_LEN];
    match rng.fill(&mut nonce) {
        Ok(()) => Some(nonce),
        Err(_) => None,
    }
}

/// Relies on ring's `LessSafeKey::seal_in_place_append_tag` (with
/// `UnboundKey::new` and `Nonce::assume_unique_for_key` preparing the key and
/// nonce): the result is the ciphertext followed by the 16-byte tag, a
/// function of key, nonce and plaintext alone, here named `gcm_seal`; its
/// length is the plaintext's plus the tag's.
#[verifier::external_body]
fn aead_seal(key: &[u8; 32], nonce: &[u8], plaintext: &[u8]) -> (r: Option<Vec<u8>>)
    requires
        nonce@.len() == HEADER_LEN,
    ensures
        r matches Some(sealed) ==> sealed@ == gcm_seal(key@, nonce@, plaintext@)
            && sealed@.len() == plaintext@.len() + TAG_LEN,
{
    let unbound = match UnboundKey::new(&AES_256_GCM, key) {
        Ok(u) => u,
        Err(_) => return None,
    };
    let sealing = LessSafeKey::new(unbound);
    let n = Nonce::assume_unique_for_key(nonce.try_into().unwrap());
    let mut buf = plaintext.to_vec();
    match sealing.seal_in_place_append_tag(n, Aad::empty(), &mut buf) {
        Ok(()) => Some(buf),
        Err(_) => None,
    }
}

/// Relies on ring's `LessSafeKey::open_in_place` (with `UnboundKey::new` and
/// `Nonce::assume_unique_for_key`): it returns a plaintext exactly when the
/// tag authenticates, that is, exactly when the input is `gcm_seal` of that
/// plaintext under the same key and nonce.
#[verifier::external_body]
fn aead_open(key: &[u8; 32], nonce: &[u8], data: &[u8]) -> (r: Option<Vec<u8>>)
    requires
        nonce@.len() == HEADER_LEN,
    ensures
        r matches Some(pt) ==> data@ == gcm_seal(key@, nonce@, pt@)
            && pt@.len() + TAG_LEN == data@.len(),
        r matches Some(pt) ==> forall|p: Seq<u8>|
            data@ == gcm_seal(key@, nonce@, p) ==> p == pt@,
        r is None ==> forall|p: Seq<u8>| data@ != gcm_seal(key@, nonce@, p),
{
    let unbound = match UnboundKey::new(&AES_256_GCM, key) {
        Ok(u) => u,
        Err(_) => return None,
    };
    let opening = LessSafeKey::new(unbound);
    let n = Nonce::assume_unique_for_key(nonce.try_into().unwrap());
    let mut buf = data.to_vec();
    match opening.open_in_place(n, Aad::empty(), &mut buf) {
        Ok(pt) => Some(pt.to_vec()),
        Err(_) => None,
    }
}

/// Encrypt `plaintext` with AES-256-GCM under a fresh random nonce.
///
/// On success the blob is a well-formed envelope that carries exactly
/// `plaintext`, 28 bytes longer than the plaintext; so decrypting it under
/// the same key recovers the plaintext. `Err(CryptoFailed)` only when the RNG
/// or the cipher fails.
pub fn encrypt(key: &[u8; 32], plaintext: &[u8]) -> (r: Result<Vec<u8>, CodecError>)
    ensures
        r matches Ok(blob) ==> is_envelope_for(key@, blob@, plaintext@)
            && blob@.len() == plaintext@.len() + MIN_BLOB_LEN,
        r matches Err(e) ==> e == CodecError::CryptoFailed,
{
    let nonce = match fresh_nonce() {
        Some(n) => n,
        None => return Err(CodecError::CryptoFailed),
    };
    let mut sealed = match aead_seal(key, nonce.as_slice(), plaintext) {
        Some(s) => s,
        None => return Err(CodecError::CryptoFailed),
    };
    let ghost nonce0 = nonce@;
    let ghost sealed0 = sealed@;
    let mut blob = nonce;
    blob.append(&mut sealed);
    proof {
        assert(blob@.subrange(0, HEADER_LEN as int) =~= nonce0);
        assert(blob@.subrange(HEADER_LEN as int, blob@.len() as int) =~= sealed0);
    }
    Ok(blob)
}

/// Decrypt a blob produced by `encrypt`.
///
/// `TooShort` exactly when the blob cannot even hold a nonce and a tag;
/// otherwise the result is the unique plaintext the blob is an envelope for,
/// or `AuthFailed` when it is an envelope for none (wrong key or tampering).
pub fn decrypt(key: &[u8; 32], data: &[u8]) -> (r: Result<Vec<u8>, CodecError>)
    ensures
        (r matches Err(CodecError::TooShort)) <==> data@.len() < MIN_BLOB_LEN,
        r matches Ok(pt) ==> is_envelope_for(key@, data@, pt@)
            && pt@.len() + MIN_BLOB_LEN == data@.len(),
        forall|p: Seq<u8>| is_envelope_for(key@, data@, p)
            ==> (r matches Ok(pt) && pt@ == p),
        (r matches Err(CodecError::AuthFailed)) <==> (data@.len() >= MIN_BLOB_LEN
            && !(exists|p: Seq<u8>| is_envelope_for(key@, data@, p))),
{
    if data.len() < MIN_BLOB_LEN {
        return Err(CodecError::TooShort);
    }
    let nonce = slice_subrange(data, 0, HEADER_LEN);
    let body = slice_subrange(data, HEADER_LEN, data.len());
    match aead_open(key, nonce, body) {
        Some(pt) => {
            proof {
                assert(is_envelope_for(key@, data@, pt@));
                assert(forall|p: Seq<u8>| is_envelope_for(key@, data@, p)
                    ==> body@ == gcm_seal(key@, nonce@, p));
            }
            Ok(pt)
        },
        None => {
            proof {
                assert(forall|p: Seq<u8>| is_envelope_for(key@, data@, p)
                    ==> body@ == gcm_seal(key@, nonce@, p));
            }
            Err(CodecError::AuthFailed)
        },
    }
}

/// Law: decryption is the left inverse of encryption under the same key.
/// Whenever `encrypt` succeeds, decrypting its blob with the same key
/// returns exactly the plaintext that was sealed.
pub fn encrypt_then_decrypt(key: &[u8; 32], plaintext: &[u8]) -> (r: Option<Vec<u8>>)
    ensures
        r matches Some(v) ==> v@ == plaintext@,
{
    let blob = match encrypt(key, plaintext) {
        Ok(b) => b,
        Err(_) => return None,
    };
    let recovered = decrypt(key, blob.as_slice());
    proof {
        assert(recovered matches Ok(v) && v@ == plaintext@);
    }
    match recovered {
        Ok(v) => Some(v),
        Err(_) => None,
    }
}

/// A well-formed envelope is determined by its key, nonce and plaintext: two
/// blobs that are valid envelopes for the same plaintext under the same key
/// and that carry the same nonce are byte-for-byte identical. In particular,
/// altering any byte of a valid envelope's body can never yield a second
/// envelope for the same plaintext.
pub proof fn lemma_envelope_determined(key: Seq<u8>, b1: Seq<u8>, b2: Seq<u8>, pt: Seq<u8>)
    requires
        is_envelope_for(key, b1, pt),
        is_envelope_for(key, b2, pt),
        b1.subrange(0, HEADER_LEN as int) == b2.subrange(0, HEADER_LEN as int),
    ensures
        b1 == b2,
{
    let n = b1.subrange(0, HEADER_LEN as int);
    assert(b1.subrange(HEADER_LEN as int, b1.len() as int) == gcm_seal(key, n, pt));
    assert(b2.subrange(HEADER_LEN as int, b2.len() as int) == gcm_seal(key, n, pt));
    assert(b1.len() == HEADER_LEN + gcm_seal(key, n, pt).len());
    assert(b2.len() == HEADER_LEN + gcm_seal(key, n, pt).len());
    assert(b1 =~= b2) by {
        assert forall|i: int| 0 <= i < b1.len() implies b1[i] == b2[i] by {
            if i < HEADER_LEN {
                assert(b1[i] == b1.subrange(0, HEADER_LEN as int)[i]);
                assert(b2[i] == b2.subrange(0, HEADER_LEN as int)[i]);
            } else {
                assert(b1[i] == b1.subrange(HEADER_LEN as int, b1.len() as int)[
                    i - HEADER_LEN]);
                assert(b2[i] == b2.subrange(HEADER_LEN as int, b2.len() as int)[
                    i - HEADER_LEN]);
            }
        }
    }
}

} // verus!
