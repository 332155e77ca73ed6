//! A local, single-user secret store: (username, password, notes) records
//! kept encrypted at rest under a key derived from a master passphrase.
//!
//! The store lives in one file holding a JSON envelope of two base64
//! fields: a fresh random nonce and an AES-256-GCM ciphertext of the
//! serialized account map. Every operation rebuilds the map from that
//! document, acts on it, and on a mutation hands back a freshly sealed
//! document for the caller to persist whole; a failed operation hands
//! nothing back, so the file is never left half-written.
//!
//! The caller (a thin CLI) does the file reading and writing and passes
//! the content in as plain bytes; everything from key derivation to the
//! envelope format is specified and verified here, with the calls into
//! the hash, cipher, base64 and random-number crates standing behind
//! small trusted wrappers whose contracts state what those crates
//! document.

pub mod errors;
pub mod accounts;
pub mod codec;
pub mod crypto;
pub mod envelope;
pub mod store;
