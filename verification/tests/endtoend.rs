use std::cell::RefCell;

use smartextract::archives::{detect_archive, ArchiveKind};
use smartextract::config::Config;
use smartextract::extract::{ArchiveToolAdapter, PasswordAttempt};
use smartextract::passwords::{Password, PasswordDatabase};

/// Answers like an archive whose one real password is `secret`: listing and
/// extraction succeed with it and report a wrong password for anything else.
struct SecretTool {
    secret: String,
    log: RefCell<Vec<String>>,
}

impl SecretTool {
    fn judge(&self, op: &str, pwd: &Password) -> Result<PasswordAttempt, String> {
        let shown = match pwd {
            Password::NoPassword => "<none>".to_string(),
            Password::Password(s) => s.clone(),
        };
        self.log.borrow_mut().push(format!("{} {}", op, shown));
        match pwd {
            Password::Password(s) if *s == self.secret => Ok(PasswordAttempt::Correct),
            _ => Ok(PasswordAttempt::Incorrect),
        }
    }
}

impl ArchiveToolAdapter for SecretTool {
    fn try_pwd_by_list(
        &self,
        _first_part: &String,
        pwd: &Password,
    ) -> Result<PasswordAttempt, String> {
        self.judge("list", pwd)
    }

    fn try_extract(
        &self,
        _first_part: &String,
        pwd: &Password,
        _to: &String,
    ) -> Result<PasswordAttempt, String> {
        self.judge("extract", pwd)
    }
}

#[test]
fn detect_discover_promote_and_delete() {
    let mut listing: Vec<String> = vec![
        "show.part001.rar".to_string(),
        "show.part002.rar".to_string(),
        "show.part003.rar".to_string(),
        "notes.txt".to_string(),
    ];
    let archive = detect_archive(&"show.part001.rar".to_string(), true, &listing)
        .expect("the first volume starts the set");
    assert!(matches!(archive.kind, ArchiveKind::RAR));
    assert_eq!(archive.parts.len(), 3);

    let mut db = PasswordDatabase::create(vec![
        Password::NoPassword,
        Password::Password("secret".to_string()),
    ]);
    let tool = SecretTool { secret: "secret".to_string(), log: RefCell::new(Vec::new()) };
    let result = archive
        .extract(&"/data/show".to_string(), &db, &tool)
        .expect("the configured password opens the archive");
    assert_eq!(result.password, Password::Password("secret".to_string()));
    assert_eq!(
        *tool.log.borrow(),
        vec!["list <none>", "list secret", "extract secret"]
    );

    // the caller promotes the found password and deletes the volumes
    db.promote(&result.password);
    assert_eq!(
        db.passwords,
        vec![Password::NoPassword, Password::Password("secret".to_string())]
    );
    listing.retain(|name| !archive.parts.contains(name));
    assert_eq!(listing, vec!["notes.txt".to_string()]);
}

#[test]
fn default_config_has_no_passwords() {
    let cfg = Config::default_config();
    assert!(cfg.passwords.is_empty());
    let db = PasswordDatabase::create(cfg.passwords);
    assert_eq!(db.passwords, vec![Password::NoPassword]);
}
