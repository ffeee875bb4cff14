//! The credential hasher and the client-secret generator.
//!
//! Password hashing is an opaque outside collaborator: a password goes in,
//! a salted digest in PHC string form comes out, and verification is a
//! yes-or-no answer.  Nothing here is promised beyond what the collaborator
//! documents; the logic that depends on these values takes them as plain
//! arguments.

use argon2::PasswordHasher;
use argon2::PasswordVerifier;
use rand::RngExt;
use vstd::prelude::*;

use crate::error::AppError;

verus! {

/// The chars a generated client secret draws from.
pub open spec fn is_alnum_char(c: char) -> bool {
    let u = c as u32;
    (48 <= u <= 57) || (65 <= u <= 90) || (97 <= u <= 122)
}

/// Relies on argon2's `PasswordHasher::hash_password`: an Argon2id digest
/// of the password under a fresh random salt, in PHC string form.  The
/// salt makes the outcome nondeterministic, so nothing is promised of the
/// digest's content.
#[verifier::external_body]
fn argon2_hash(password: &str) -> (r: Option<String>) {
    let argon2 = argon2::Argon2::default();
    match argon2.hash_password(password.as_bytes()) {
        Ok(hash) => Some(hash.to_string()),
        Err(_) => None,
    }
}

/// Relies on argon2's `PasswordVerifier::verify_password`: whether the
/// password matches a PHC digest string; a malformed digest never
/// matches.
#[verifier::external_body]
pub fn verify_password(password: &str, digest: &str) -> (r: bool) {
    let parsed = match argon2::PasswordHash::new(digest) {
        Ok(h) => h,
        Err(_) => {
            return false;
        },
    };
    let argon2 = argon2::Argon2::default();
    argon2.verify_password(password.as_bytes(), &parsed).is_ok()
}

/// Relies on rand's `Alphanumeric` distribution: 32 chars drawn uniformly
/// from the ASCII letters and digits.
#[verifier::external_body]
pub fn generate_client_secret() -> (r: String)
    ensures
        r@.len() == 32,
        forall|i: int| 0 <= i < r@.len() ==> is_alnum_char(#[trigger] r@[i]),
{
    rand::rng().sample_iter(&rand::distr::Alphanumeric).take(32).map(char::from).collect()
}

/// Hashes a password for storage; the digest is opaque to this core.
pub fn hash_password(password: &str) -> (r: Result<String, AppError>)
    ensures
        r is Err ==> r->Err_0 is HashError,
{
    match argon2_hash(password) {
        Some(h) => Ok(h),
        None => Err(AppError::HashError),
    }
}

} // verus!
