use argon2::{Argon2, PasswordHash, PasswordVerifier};

use box_packing::account::{validate_email, validate_password, EmailError, PasswordError};
use box_packing::credentials::hash_password;

#[test]
fn check_email_valid() {
    let emails = vec![
        "temp@gmail.com",
        "temp@yandex.ru",
        "temp@vk.com",
        "temp@mail.ru",
    ];
    for email in emails {
        assert_eq!(Ok(()), validate_email(email.to_string()));
    }
}

#[test]
fn check_is_not_email() {
    let email = "temp";
    assert_eq!(Err(EmailError::NotEmail), validate_email(email.to_string()));
}

#[test]
fn rejects_email_with_trailing_data() {
    let email = "temp@gmail.com invalid";
    assert_eq!(Err(EmailError::NotEmail), validate_email(email.to_string()));
}

#[test]
fn rejects_unsupported_email_provider() {
    let email = "temp@example.com";
    assert_eq!(
        Err(EmailError::NotSupportedEmail),
        validate_email(email.to_string())
    );
}

#[test]
fn check_passwod_valid() {
    let password = "temppassword1!";
    assert_eq!(Ok(()), validate_password(password.to_string()));
}

#[test]
fn check_password_without_letters() {
    let password = "12345678!";
    assert_eq!(
        Err(PasswordError::Letters),
        validate_password(password.to_string())
    );
}

#[test]
fn check_password_without_numbers() {
    let password = "temppassword!";
    assert_eq!(
        Err(PasswordError::Numbers),
        validate_password(password.to_string())
    );
}

#[test]
fn check_password_without_special_characters() {
    let password = "12345678a";
    assert_eq!(
        Err(PasswordError::SpecialCharacter),
        validate_password(password.to_string())
    );
}

#[test]
fn check_password_with_not_enough_length() {
    let password = "12345a!";
    assert_eq!(
        Err(PasswordError::Length),
        validate_password(password.to_string())
    );
}

#[test]
fn hashes_password_with_argon2() {
    let password = "temppassword1!";
    let hash = hash_password(password).unwrap();
    let parsed_hash = PasswordHash::new(&hash).unwrap();

    assert_ne!(hash, password);
    assert!(
        Argon2::default()
            .verify_password(password.as_bytes(), &parsed_hash)
            .is_ok()
    );
}
