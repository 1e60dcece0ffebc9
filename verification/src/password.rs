//! Credential verification at the library boundary.
//!
//! The stored credential is an opaque verifier string; checking a
//! plaintext credential against it is delegated to the hashing primitive,
//! whose outcome is a pure function of the two strings.

use vstd::prelude::*;

verus! {

/// The outcome of checking a credential against a stored verifier string:
/// `Some(true)` on a match, `Some(false)` on a mismatch, `None` when the
/// stored string is not a usable verifier.
pub uninterp spec fn credential_check(password: Seq<char>, stored: Seq<char>) -> Option<bool>;

/// Failure to use the stored credential verifier at all.
#[derive(Clone, Copy, PartialEq, Eq, Structural, Debug)]
pub enum CredentialError {
    /// The stored verifier string cannot be parsed by the hashing
    /// primitive.
    UnusableHash,
}

/// Relies on argon2's `PasswordVerifier::verify_password`: the outcome is a
/// pure function of the password and the stored PHC string alone — `Ok` on
/// a match, `Error::PasswordInvalid` on a mismatch, another error when the
/// stored string is unusable.
#[verifier::external_body]
pub(crate) fn check_credential(password: &str, stored: &str) -> (r: Option<bool>)
    ensures
        r == credential_check(password@, stored@),
{
    let hasher = argon2::Argon2::default();
    match argon2::PasswordVerifier::<str>::verify_password(&hasher, password.as_bytes(), stored) {
        Ok(()) => Some(true),
        Err(argon2::password_hash::Error::PasswordInvalid) => Some(false),
        Err(_) => None,
    }
}

/// Verifies a plaintext credential against a stored verifier string.
pub fn verify(password: &str, stored: &str) -> (r: Result<bool, CredentialError>)
    ensures
        match credential_check(password@, stored@) {
            Some(b) => r == Ok::<bool, CredentialError>(b),
            None => r == Err::<bool, CredentialError>(CredentialError::UnusableHash),
        },
{
    match check_credential(password, stored) {
        Some(b) => Ok(b),
        None => Err(CredentialError::UnusableHash),
    }
}

/// What the first-run setup makes of a new password and its confirmation.
#[derive(Clone, Copy, PartialEq, Eq, Structural, Debug)]
pub enum SetupCheck {
    /// The password is empty and cannot be used.
    EmptyPassword,
    /// The confirmation does not repeat the password.
    Mismatch,
    /// The password can be stored.
    Acceptable,
}

/// Validates a new password and its confirmation during first-run setup.
pub fn check_new_password(password: &String, confirm: &String) -> (r: SetupCheck)
    ensures
        r == SetupCheck::EmptyPassword <==> password@.len() == 0,
        r == SetupCheck::Mismatch <==> (password@.len() > 0 && password@ != confirm@),
        r == SetupCheck::Acceptable <==> (password@.len() > 0 && password@ == confirm@),
{
    if password.as_str().is_empty() {
        SetupCheck::EmptyPassword
    } else if !password.eq(confirm) {
        SetupCheck::Mismatch
    } else {
        SetupCheck::Acceptable
    }
}

} // verus!
