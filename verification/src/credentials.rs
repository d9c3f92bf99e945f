//! Password hashes and sign-in: hashing a new password with Argon2, and
//! judging a sign-in attempt against a stored account.

use vstd::prelude::*;

use argon2::{PasswordHasher, PasswordVerifier};

use vstd::utf8::encode_utf8;

use crate::account::{
    email_result, email_shaped, password_outcome, registration_errors, registration_messages,
    same_text, validate_email, validate_password, RegistrationType, User, UserRoles,
};

verus! {

#[verifier::external_type_specification]
#[verifier::external_body]
pub struct ExPasswordHashError(argon2::password_hash::Error);

/// What checking `password` against the stored hash text `phc` gives:
/// `None` when `phc` is not a hash string, else whether the password
/// matches it.
pub uninterp spec fn argon2_check(password: Seq<char>, phc: Seq<char>) -> Option<bool>;

/// Trusted: parses `phc` with `argon2::PasswordHash::new` and, when it
/// parses, runs `PasswordVerifier::verify_password` of `Argon2::default()`
/// on the password's bytes. Verification recomputes the hash with the
/// algorithm, version, parameters and salt written in `phc`, so the outcome
/// is a function of the two strings, which `argon2_check` names.
#[verifier::external_body]
fn argon2_verify(password: &str, phc: &str) -> (r: Option<bool>)
    ensures
        r == argon2_check(password@, phc@),
{
    match argon2::PasswordHash::new(phc) {
        Ok(parsed) => Some(argon2::Argon2::default().verify_password(password.as_bytes(), &parsed).is_ok()),
        Err(_) => None,
    }
}

/// The longest password, in UTF-8 bytes, that Argon2 hashes.
pub const MAX_PASSWORD_BYTES: usize = 0xFFFF_FFFF;

/// Trusted: draws a salt with `SaltString::generate` from the operating
/// system's generator (`OsRng`, which panics when the system cannot supply
/// randomness), hashes the password's bytes with
/// `PasswordHasher::hash_password` of `Argon2::default()` and writes the
/// hash as its PHC string. The salt is random, so nothing is claimed of the
/// text itself; the claim is that the password checks against it, since
/// verification recomputes the hash with the parameters and salt the string
/// records. With the default parameters (32-byte output) and a generated
/// 16-byte salt, the only error the hasher reports is a password longer
/// than `MAX_PASSWORD_BYTES` bytes (`Error::PwdTooLong`), so it succeeds
/// exactly on the others. That the generator does not panic is left
/// unsaid.
#[verifier::external_body]
fn argon2_hash(password: &str) -> (r: Result<String, argon2::password_hash::Error>)
    ensures
        r matches Ok(h) ==> argon2_check(password@, h@) == Some(true),
        r is Ok <==> encode_utf8(password@).len() <= MAX_PASSWORD_BYTES,
{
    let salt = argon2::password_hash::SaltString::generate(&mut argon2::password_hash::rand_core::OsRng);
    match argon2::Argon2::default().hash_password(password.as_bytes(), &salt) {
        Ok(hash) => Ok(hash.to_string()),
        Err(e) => Err(e),
    }
}

/// Trusted: the `Display` text of a hashing error.
#[verifier::external_body]
fn hash_error_text(e: &argon2::password_hash::Error) -> (s: String) {
    e.to_string()
}

/// Hashing a password failed; `message` says why.
#[derive(Debug)]
pub struct PasswordHashFailure {
    pub message: String,
}

/// An Argon2 hash of the password with a fresh salt, as a PHC string that
/// the password checks against. It fails exactly on a password longer than
/// `MAX_PASSWORD_BYTES` bytes.
pub fn hash_password(password: &str) -> (r: Result<String, PasswordHashFailure>)
    ensures
        r matches Ok(h) ==> argon2_check(password@, h@) == Some(true),
        r is Ok <==> encode_utf8(password@).len() <= MAX_PASSWORD_BYTES,
{
    match argon2_hash(password) {
        Ok(h) => Ok(h),
        Err(e) => Err(PasswordHashFailure { message: hash_error_text(&e) }),
    }
}

/// The verdict on a sign-in attempt.
#[derive(Clone, Copy, Debug, PartialEq, Eq, Structural)]
pub enum SignInDecision {
    /// The credentials match.
    Accepted,
    /// A default account, but no password given or none stored.
    PasswordMissing,
    /// The stored hash is not a hash string.
    StoredHashInvalid,
    /// The password does not match the stored hash.
    PasswordMismatch,
    /// The Yandex ID subject differs from the stored one.
    PsuidMismatch,
}

pub open spec fn password_decision_spec(outcome: Option<bool>) -> SignInDecision {
    match outcome {
        None => SignInDecision::StoredHashInvalid,
        Some(true) => SignInDecision::Accepted,
        Some(false) => SignInDecision::PasswordMismatch,
    }
}

/// The verdict for a default account, from what checking the password
/// against the stored hash gave.
pub fn password_decision(outcome: Option<bool>) -> (r: SignInDecision)
    ensures
        r == password_decision_spec(outcome),
{
    match outcome {
        None => SignInDecision::StoredHashInvalid,
        Some(true) => SignInDecision::Accepted,
        Some(false) => SignInDecision::PasswordMismatch,
    }
}

pub open spec fn opt_str_view(o: Option<&str>) -> Option<Seq<char>> {
    match o {
        Some(s) => Some(s@),
        None => None,
    }
}

/// A default account needs a password that checks against its stored hash;
/// a Yandex ID account needs the same subject as the stored one (both may
/// be absent).
pub open spec fn sign_in_result(user: User, password: Option<Seq<char>>, psuid: Option<Seq<char>>) -> SignInDecision {
    match user.spec_registration_type() {
        RegistrationType::Default => match (password, user.spec_hash()) {
            (Some(p), Some(h)) => password_decision_spec(argon2_check(p, h)),
            _ => SignInDecision::PasswordMissing,
        },
        RegistrationType::YandexID => if psuid == user.spec_psuid() {
            SignInDecision::Accepted
        } else {
            SignInDecision::PsuidMismatch
        },
    }
}

/// Judges a sign-in attempt with an optional password and Yandex ID subject.
pub fn check_sign_in(user: &User, password: Option<&str>, psuid: Option<&str>) -> (r: SignInDecision)
    ensures
        r == sign_in_result(*user, opt_str_view(password), opt_str_view(psuid)),
{
    match user.get_registration_type() {
        RegistrationType::Default => match (password, user.get_hash()) {
            (Some(p), Some(h)) => password_decision(argon2_verify(p, h.as_str())),
            _ => SignInDecision::PasswordMissing,
        },
        RegistrationType::YandexID => {
            let same = match (psuid, user.get_psuid()) {
                (Some(given), Some(stored)) => crate::account::same_text(given, stored.as_str()),
                (None, None) => true,
                _ => false,
            };
            if same {
                SignInDecision::Accepted
            } else {
                SignInDecision::PsuidMismatch
            }
        },
    }
}

/// Why a sign-up form is turned away.
#[derive(Debug)]
pub enum SignUpRefusal {
    /// A default account without both password fields.
    PasswordMissing,
    /// A Yandex ID account without its subject.
    PsuidMissing,
    /// The form breaks the sign-up rules; the messages, in order.
    Invalid(Vec<&'static str>),
    /// Hashing the password failed; the hasher's message.
    HashFailed(String),
}

/// What a sign-up form gives. A default account needs both password
/// fields; its form is judged by the rules (matching passwords, the
/// password rules, the address rules), and an acceptable form gives an
/// account with the address and a hash the password checks against. A
/// Yandex ID account needs its subject and gives an account with the
/// address and the subject.
pub open spec fn sign_up_outcome(
    r: Result<User, SignUpRefusal>,
    kind: RegistrationType,
    email: Seq<char>,
    password: Option<Seq<char>>,
    verify_password: Option<Seq<char>>,
    psuid: Option<Seq<char>>,
) -> bool {
    match kind {
        RegistrationType::Default => match (password, verify_password) {
            (Some(p), Some(v)) => {
                let messages = registration_messages(
                    p == v,
                    password_outcome(p),
                    email_result(email, email_shaped(email)),
                );
                if messages.len() > 0 {
                    r matches Err(SignUpRefusal::Invalid(m)) && m@ == messages
                } else if encode_utf8(p).len() <= MAX_PASSWORD_BYTES {
                    r matches Ok(u) && {
                        &&& u.spec_registration_type() == RegistrationType::Default
                        &&& u.spec_email() == email
                        &&& u.spec_psuid() is None
                        &&& u.spec_role() == UserRoles::Employer
                        &&& u.spec_hash() matches Some(h) && argon2_check(p, h) == Some(true)
                    }
                } else {
                    r matches Err(SignUpRefusal::HashFailed(_))
                }
            },
            _ => r matches Err(SignUpRefusal::PasswordMissing),
        },
        RegistrationType::YandexID => match psuid {
            None => r matches Err(SignUpRefusal::PsuidMissing),
            Some(s) => r matches Ok(u) && {
                &&& u.spec_registration_type() == RegistrationType::YandexID
                &&& u.spec_email() == email
                &&& u.spec_psuid() == Some(s)
                &&& u.spec_hash() is None
                &&& u.spec_role() == UserRoles::Employer
            },
        },
    }
}

/// The account a sign-up form asks for, or why it is turned away.
pub fn sign_up(
    kind: RegistrationType,
    email: &str,
    password: Option<&str>,
    verify_password: Option<&str>,
    psuid: Option<&str>,
) -> (r: Result<User, SignUpRefusal>)
    ensures
        sign_up_outcome(r, kind, email@, opt_str_view(password), opt_str_view(verify_password), opt_str_view(psuid)),
        r matches Ok(u) ==> u.spec_registration_type() == kind,
{
    match kind {
        RegistrationType::Default => {
            let (p, v) = match (password, verify_password) {
                (Some(p), Some(v)) => (p, v),
                _ => return Err(SignUpRefusal::PasswordMissing),
            };
            let password_check = validate_password(p.to_owned());
            let email_check = validate_email(email.to_owned());
            let errors = registration_errors(same_text(p, v), password_check, email_check);
            if errors.len() > 0 {
                return Err(SignUpRefusal::Invalid(errors));
            }
            match hash_password(p) {
                Ok(hash) => Ok(User::default().set_hash(hash.as_str()).set_email(email)),
                Err(failure) => Err(SignUpRefusal::HashFailed(failure.message)),
            }
        },
        RegistrationType::YandexID => match psuid {
            None => Err(SignUpRefusal::PsuidMissing),
            Some(s) => Ok(
                User::default().set_registration_type(RegistrationType::YandexID).set_email(email).set_psuid(s),
            ),
        },
    }
}

/// A default account whose stored hash came from hashing `password` accepts
/// that password.
pub proof fn lemma_hashed_password_signs_in(user: User, password: Seq<char>, psuid: Option<Seq<char>>)
    requires
        user.spec_registration_type() == RegistrationType::Default,
        user.spec_hash() matches Some(h) && argon2_check(password, h) == Some(true),
    ensures
        sign_in_result(user, Some(password), psuid) == SignInDecision::Accepted,
{
}

} // verus!
