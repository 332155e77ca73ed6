use vstd::prelude::*;

use aes_gcm::Aes256Gcm;
use aes_gcm::aead::{Aead, KeyInit};
use sha2::{Digest, Sha256};

use crate::errors::StoreError;

verus! {

/// The SHA-256 digest of the UTF-8 bytes of a string.
pub uninterp spec fn sha256_of(passphrase: Seq<char>) -> Seq<u8>;

/// Relies on sha2's Sha256: the 32-byte digest is a pure function of the
/// hashed bytes.
#[verifier::external_body]
fn sha256_digest(passphrase: &str) -> (r: [u8; 32])
    ensures
        r@ == sha256_of(passphrase@),
{
    let digest = Sha256::digest(passphrase.as_bytes());
    let mut key = [0u8; 32];
    key.copy_from_slice(&digest);
    key
}

/// Derives the 32-byte session key from the master passphrase: a single
/// unsalted, uniterated hash of its UTF-8 bytes. Deterministic by design;
/// strengthening it would change the on-disk format.
pub fn derive_key(passphrase: &str) -> (key: [u8; 32])
    ensures
        key@ == sha256_of(passphrase@),
{
    sha256_digest(passphrase)
}

/// The AES-256-GCM sealing of a plaintext under a key and a 12-byte
/// nonce: ciphertext with the 16-byte tag appended.
pub uninterp spec fn aes_gcm_seal(key: Seq<u8>, nonce: Seq<u8>, plaintext: Seq<u8>) -> Seq<u8>;

/// Relies on aes_gcm's Aes256Gcm::encrypt: the ciphertext is a pure
/// function of key, nonce and plaintext, 16 bytes (the tag) longer than
/// the plaintext, no other plaintext seals to the same ciphertext under
/// that key and nonce, and encryption fails only on plaintexts beyond
/// GCM's size limit, far above the bound stated here.
#[verifier::external_body]
fn aes_encrypt(key: &[u8; 32], nonce: &[u8], plaintext: &[u8]) -> (r: Result<Vec<u8>, StoreError>)
    requires
        nonce@.len() == 12,
    ensures
        r matches Ok(ct) ==> ct@ == aes_gcm_seal(key@, nonce@, plaintext@)
            && ct@.len() == plaintext@.len() + 16
            && (forall|p2: Seq<u8>| aes_gcm_seal(key@, nonce@, p2) == ct@ ==> p2 == plaintext@),
        r matches Err(e) ==> e == StoreError::AuthenticationError,
        plaintext@.len() <= 0xFFFFFFFF ==> r is Ok,
{
    let cipher = Aes256Gcm::new(key.into());
    let nonce_arr: [u8; 12] = match nonce.try_into() {
        Ok(n) => n,
        Err(_) => return Err(StoreError::AuthenticationError),
    };
    match cipher.encrypt(&nonce_arr.into(), plaintext) {
        Ok(ct) => Ok(ct),
        Err(_) => Err(StoreError::AuthenticationError),
    }
}

/// Relies on aes_gcm's Aes256Gcm::decrypt: it returns exactly the one
/// plaintext whose sealing under (key, nonce) is the ciphertext, and
/// fails exactly when no such plaintext exists (the tag does not verify:
/// wrong key, or corrupted or tampered ciphertext). The no-plaintext
/// claim is stated for ciphertexts within GCM's operating limits, which
/// covers everything this store can hold.
#[verifier::external_body]
fn aes_decrypt(key: &[u8; 32], nonce: &[u8], ciphertext: &[u8]) -> (r: Result<Vec<u8>, StoreError>)
    requires
        nonce@.len() == 12,
    ensures
        r matches Ok(pt) ==> ciphertext@ == aes_gcm_seal(key@, nonce@, pt@)
            && (forall|p2: Seq<u8>| aes_gcm_seal(key@, nonce@, p2) == ciphertext@ ==> p2 == pt@),
        r matches Err(e) ==> e == StoreError::AuthenticationError,
        r is Err && ciphertext@.len() < 0x800000000 ==> (forall|pt: Seq<u8>|
            aes_gcm_seal(key@, nonce@, pt) != ciphertext@),
{
    let cipher = Aes256Gcm::new(key.into());
    let nonce_arr: [u8; 12] = match nonce.try_into() {
        Ok(n) => n,
        Err(_) => return Err(StoreError::AuthenticationError),
    };
    match cipher.decrypt(&nonce_arr.into(), ciphertext) {
        Ok(pt) => Ok(pt),
        Err(_) => Err(StoreError::AuthenticationError),
    }
}

/// Relies on rand::random: 12 bytes drawn from the thread-local CSPRNG.
/// Nothing is assumed of the value beyond its length.
#[verifier::external_body]
fn random_nonce() -> (r: Vec<u8>)
    ensures
        r@.len() == 12,
{
    rand::random::<[u8; 12]>().to_vec()
}

/// A persisted ciphertext together with the nonce it was sealed under.
pub struct SealedBox {
    pub nonce: Vec<u8>,
    pub ciphertext: Vec<u8>,
}

/// Seals a plaintext under the session key with a fresh random nonce;
/// the nonce is drawn anew on every call and never chosen by the caller.
/// Succeeds on every plaintext within the stated machine limit.
pub fn seal(key: &[u8; 32], plaintext: &[u8]) -> (r: Result<SealedBox, StoreError>)
    ensures
        r matches Ok(sb) ==> sb.nonce@.len() == 12
            && sb.ciphertext@ == aes_gcm_seal(key@, sb.nonce@, plaintext@)
            && sb.ciphertext@.len() == plaintext@.len() + 16
            && (forall|p2: Seq<u8>| aes_gcm_seal(key@, sb.nonce@, p2) == sb.ciphertext@
                ==> p2 == plaintext@),
        r matches Err(e) ==> e == StoreError::AuthenticationError,
        plaintext@.len() <= 0xFFFFFFFF ==> r is Ok,
{
    let nonce = random_nonce();
    match aes_encrypt(key, nonce.as_slice(), plaintext) {
        Ok(ciphertext) => Ok(SealedBox { nonce, ciphertext }),
        Err(e) => Err(e),
    }
}

/// Opens a sealed ciphertext: returns exactly the one plaintext that
/// seals to it, and fails with `AuthenticationError` exactly when no
/// plaintext does (wrong key, or corrupted or tampered data).
pub fn open_sealed(key: &[u8; 32], nonce: &[u8], ciphertext: &[u8]) -> (r: Result<Vec<u8>, StoreError>)
    requires
        nonce@.len() == 12,
    ensures
        r matches Ok(pt) ==> ciphertext@ == aes_gcm_seal(key@, nonce@, pt@)
            && (forall|p2: Seq<u8>| aes_gcm_seal(key@, nonce@, p2) == ciphertext@ ==> p2 == pt@),
        r matches Err(e) ==> e == StoreError::AuthenticationError,
        r is Err && ciphertext@.len() < 0x800000000 ==> (forall|pt: Seq<u8>|
            aes_gcm_seal(key@, nonce@, pt) != ciphertext@),
{
    aes_decrypt(key, nonce, ciphertext)
}

} // verus!
