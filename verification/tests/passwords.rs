use smartextract::passwords::{Password, PasswordDatabase};

fn pwd(s: &str) -> Password {
    Password::Password(s.to_string())
}

#[test]
fn create_deduplicates_keeping_first_occurrences() {
    let a = pwd("a");
    let b = pwd("b");
    let c = pwd("c");
    let db = PasswordDatabase::create(vec![
        a.clone(),
        b.clone(),
        a.clone(),
        c.clone(),
        b.clone(),
    ]);
    assert_eq!(db.passwords, vec![a, b, c]);
}

#[test]
fn create_seeds_empty_input_with_no_password() {
    let db = PasswordDatabase::create(vec![]);
    assert_eq!(db.passwords, vec![Password::NoPassword]);
}

#[test]
fn create_deduplicates_no_password_too() {
    let db = PasswordDatabase::create(vec![
        Password::NoPassword,
        pwd("a"),
        Password::NoPassword,
    ]);
    assert_eq!(db.passwords, vec![Password::NoPassword, pwd("a")]);
}

#[test]
fn promote_moves_match_to_the_back() {
    let mut db = PasswordDatabase::create(vec![pwd("a"), pwd("b"), pwd("c")]);
    db.promote(&pwd("b"));
    assert_eq!(db.passwords, vec![pwd("a"), pwd("c"), pwd("b")]);
}

#[test]
fn promote_of_absent_value_is_a_no_op() {
    let mut db = PasswordDatabase::create(vec![pwd("a"), pwd("b")]);
    db.promote(&pwd("zzz"));
    assert_eq!(db.passwords, vec![pwd("a"), pwd("b")]);
}

#[test]
fn promote_of_front_entry() {
    let mut db = PasswordDatabase::create(vec![Password::NoPassword, pwd("s")]);
    db.promote(&Password::NoPassword);
    assert_eq!(db.passwords, vec![pwd("s"), Password::NoPassword]);
}

#[test]
fn promote_of_last_entry_keeps_order() {
    let mut db = PasswordDatabase::create(vec![pwd("a"), pwd("b")]);
    db.promote(&pwd("b"));
    assert_eq!(db.passwords, vec![pwd("a"), pwd("b")]);
}

#[test]
fn password_equality_is_by_value() {
    assert_eq!(pwd("a"), pwd("a"));
    assert_ne!(pwd("a"), pwd("b"));
    assert_ne!(pwd(""), Password::NoPassword);
    assert_eq!(Password::NoPassword, Password::NoPassword);
}
