use vstd::prelude::*;

verus! {

/// The five failure kinds of the store. Every fallible operation of the
/// library reports exactly one of these.
#[derive(Debug, Clone, Copy, PartialEq, Eq, Structural)]
pub enum StoreError {
    /// The persisted document or a decrypted payload is not well formed.
    FormatError,
    /// Authenticated decryption failed: wrong key, or a corrupted or
    /// tampered ciphertext (the two are indistinguishable by design).
    AuthenticationError,
    /// An account with the given username is already present.
    AlreadyExists,
    /// No account with the given username is present.
    NotFound,
    /// The caller reported a filesystem failure.
    IoError,
}

impl StoreError {
    /// A human-readable description, for the caller to render.
    pub fn message(&self) -> (r: &'static str)
        ensures
            r@ == match self {
                StoreError::FormatError => "malformed store data"@,
                StoreError::AuthenticationError => "decryption failed: wrong master key or corrupted data"@,
                StoreError::AlreadyExists => "account already exists"@,
                StoreError::NotFound => "account not found"@,
                StoreError::IoError => "filesystem failure"@,
            },
    {
        match self {
            StoreError::FormatError => "malformed store data",
            StoreError::AuthenticationError => "decryption failed: wrong master key or corrupted data",
            StoreError::AlreadyExists => "account already exists",
            StoreError::NotFound => "account not found",
            StoreError::IoError => "filesystem failure",
        }
    }
}

} // verus!
