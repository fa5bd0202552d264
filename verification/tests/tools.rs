use smartextract::extract::PasswordAttempt;
use smartextract::passwords::Password;
use smartextract::text::{ascii_lowercase, contains_substring, format_decimal, format_padded};
use smartextract::{p7z, rar};

fn pwd(s: &str) -> Password {
    Password::Password(s.to_string())
}

#[test]
fn p7z_success_is_correct() {
    let r = p7z::parse_7z_output(true, &"".to_string());
    assert!(matches!(r, PasswordAttempt::Correct));
}

#[test]
fn p7z_wrong_password_diagnostic_is_incorrect() {
    let stderr = "ERROR: Data Error in encrypted file. Wrong password?".to_string();
    let r = p7z::parse_7z_output(false, &stderr);
    assert!(matches!(r, PasswordAttempt::Incorrect));
}

#[test]
fn p7z_other_failure_is_corrupt() {
    let r = p7z::parse_7z_output(false, &"ERROR: unexpected end of archive".to_string());
    assert!(matches!(r, PasswordAttempt::CorruptArchive));
    let r = p7z::parse_7z_output(false, &"".to_string());
    assert!(matches!(r, PasswordAttempt::CorruptArchive));
}

#[test]
fn p7z_password_arguments() {
    assert_eq!(p7z::encode_pwd(&Password::NoPassword), "-p");
    assert_eq!(p7z::encode_pwd(&pwd("secret")), "-psecret");
}

#[test]
fn rar_success_is_correct() {
    let r = rar::parse_rar_status(true, Some(0));
    assert!(matches!(r, PasswordAttempt::Correct));
}

#[test]
fn rar_reserved_exit_code_is_incorrect() {
    let r = rar::parse_rar_status(false, Some(rar::RAR_BADPWD));
    assert!(matches!(r, PasswordAttempt::Incorrect));
}

#[test]
fn rar_other_failures_are_corrupt() {
    assert!(matches!(rar::parse_rar_status(false, Some(2)), PasswordAttempt::CorruptArchive));
    assert!(matches!(rar::parse_rar_status(false, None), PasswordAttempt::CorruptArchive));
}

#[test]
fn rar_password_arguments() {
    assert_eq!(rar::encode_pwd(&Password::NoPassword), "-p-");
    assert_eq!(rar::encode_pwd(&pwd("secret")), "-psecret");
}

#[test]
fn lowercasing_folds_ascii_only() {
    assert_eq!(ascii_lowercase(&"FoO.RaR".to_string()), "foo.rar");
    assert_eq!(ascii_lowercase(&"already lower 7z".to_string()), "already lower 7z");
    assert_eq!(ascii_lowercase(&"".to_string()), "");
}

#[test]
fn decimal_formatting() {
    assert_eq!(format_decimal(0), "0");
    assert_eq!(format_decimal(907), "907");
    assert_eq!(format_padded(3, 3), "003");
    assert_eq!(format_padded(12, 2), "12");
    assert_eq!(format_padded(12, 1), "12");
    assert_eq!(format_padded(0, 4), "0000");
    assert_eq!(format_padded(5, 0), "5");
}

#[test]
fn substring_scan() {
    assert!(contains_substring(&"abcdef".to_string(), &"cde".to_string()));
    assert!(contains_substring(&"abc".to_string(), &"".to_string()));
    assert!(!contains_substring(&"abc".to_string(), &"abcd".to_string()));
    assert!(!contains_substring(&"abc".to_string(), &"ac".to_string()));
}
