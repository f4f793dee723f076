//! Credential hashing and verification, delegated to bcrypt.
//!
//! The hash embeds the salt and cost it was made with, so verification is a
//! deterministic function of the password and the stored hash alone; that
//! function is named [`bcrypt_accepts`] and left uninterpreted here.

use vstd::prelude::*;

verus! {

/// Whether bcrypt verification accepts `password` against the stored hash
/// `hashed`. bcrypt recomputes the hash from the password and the salt and
/// cost embedded in `hashed` and compares, so the outcome depends on these
/// two strings alone.
pub uninterp spec fn bcrypt_accepts(password: Seq<char>, hashed: Seq<char>) -> bool;

/// Why a credential operation failed.
#[derive(Clone, Copy, Debug, PartialEq, Eq, Structural)]
pub enum AuthError {
    /// The hash could not be produced (the OS randomness source failed).
    HashFailure,
    /// The stored hash is not a well-formed bcrypt hash string.
    BadStoredHash,
}

/// Hashes a plaintext password for storage.
///
/// Relies on `bcrypt::hash` at `bcrypt::DEFAULT_COST`: the salt is drawn
/// from OS randomness and embedded, together with the cost, in the returned
/// hash string, and `bcrypt::verify` recomputes from exactly that embedded
/// salt and cost — so whatever salt was drawn, the returned hash is one
/// that verification accepts for this password.
#[verifier::external_body]
pub fn hash_password(password: &str) -> (r: Result<String, AuthError>)
    ensures
        r matches Ok(h) ==> bcrypt_accepts(password@, h@),
        r matches Err(e) ==> e == AuthError::HashFailure,
{
    match bcrypt::hash(password, bcrypt::DEFAULT_COST) {
        Ok(h) => Ok(h),
        Err(_) => Err(AuthError::HashFailure),
    }
}

/// Checks a plaintext password against a stored hash.
///
/// Relies on `bcrypt::verify`: deterministic in the password and the hash
/// (it re-hashes the password with the salt and cost split out of the hash
/// and compares); it errs only when the stored hash string is malformed.
#[verifier::external_body]
pub fn verify_password(password: &str, hashed_password: &str) -> (r: Result<bool, AuthError>)
    ensures
        r matches Ok(b) ==> b == bcrypt_accepts(password@, hashed_password@),
        r matches Err(e) ==> e == AuthError::BadStoredHash,
{
    match bcrypt::verify(password, hashed_password) {
        Ok(b) => Ok(b),
        Err(_) => Err(AuthError::BadStoredHash),
    }
}

} // verus!
