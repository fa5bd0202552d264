use std::cell::RefCell;

use smartextract::extract::{
    discovery_step, extract, ArchiveToolAdapter, DiscoveryState, ExtractError, PasswordAttempt,
};
use smartextract::passwords::{Password, PasswordDatabase};

fn pwd(s: &str) -> Password {
    Password::Password(s.to_string())
}

fn key(p: &Password) -> Option<String> {
    match p {
        Password::NoPassword => None,
        Password::Password(s) => Some(s.clone()),
    }
}

#[derive(Clone, Debug, PartialEq, Eq)]
enum Call {
    Probe(Option<String>),
    Extract(Option<String>),
}

/// A scripted archive tool: answers come from fixed tables, every call is
/// logged.
struct Scripted {
    probe_answers: Vec<(Option<String>, Result<PasswordAttempt, String>)>,
    extract_answers: Vec<(Option<String>, Result<PasswordAttempt, String>)>,
    log: RefCell<Vec<Call>>,
}

impl Scripted {
    fn new(
        probe_answers: Vec<(Option<String>, Result<PasswordAttempt, String>)>,
        extract_answers: Vec<(Option<String>, Result<PasswordAttempt, String>)>,
    ) -> Self {
        Scripted { probe_answers, extract_answers, log: RefCell::new(Vec::new()) }
    }

    fn lookup(
        table: &[(Option<String>, Result<PasswordAttempt, String>)],
        k: &Option<String>,
    ) -> Result<PasswordAttempt, String> {
        for (candidate, answer) in table {
            if candidate == k {
                return answer.clone();
            }
        }
        Ok(PasswordAttempt::Incorrect)
    }
}

impl ArchiveToolAdapter for Scripted {
    fn try_pwd_by_list(
        &self,
        _first_part: &String,
        pwd: &Password,
    ) -> Result<PasswordAttempt, String> {
        let k = key(pwd);
        self.log.borrow_mut().push(Call::Probe(k.clone()));
        Self::lookup(&self.probe_answers, &k)
    }

    fn try_extract(
        &self,
        _first_part: &String,
        pwd: &Password,
        _to: &String,
    ) -> Result<PasswordAttempt, String> {
        let k = key(pwd);
        self.log.borrow_mut().push(Call::Extract(k.clone()));
        Self::lookup(&self.extract_answers, &k)
    }
}

fn run(db: &PasswordDatabase, tool: &Scripted) -> Result<smartextract::extract::Extract, ExtractError> {
    extract(&"a.rar".to_string(), &"out".to_string(), db, tool)
}

fn a(s: &str) -> Option<String> {
    Some(s.to_string())
}

#[test]
fn probe_then_confirm_succeeds() {
    let db = PasswordDatabase::create(vec![Password::NoPassword, pwd("secret")]);
    let tool = Scripted::new(
        vec![(a("secret"), Ok(PasswordAttempt::Correct))],
        vec![(a("secret"), Ok(PasswordAttempt::Correct))],
    );
    let r = run(&db, &tool).expect("the probe finds the password");
    assert_eq!(r.password, pwd("secret"));
    assert_eq!(
        *tool.log.borrow(),
        vec![Call::Probe(None), Call::Probe(a("secret")), Call::Extract(a("secret"))]
    );
}

#[test]
fn misleading_probe_falls_through_to_phase_two() {
    // probe(a) = Correct but extract(a) = Incorrect: a is set aside, phase 2
    // finds b, and extract(a) is never called twice
    let db = PasswordDatabase::create(vec![pwd("a"), pwd("b")]);
    let tool = Scripted::new(
        vec![(a("a"), Ok(PasswordAttempt::Correct))],
        vec![
            (a("a"), Ok(PasswordAttempt::Incorrect)),
            (a("b"), Ok(PasswordAttempt::Correct)),
        ],
    );
    let r = run(&db, &tool).expect("phase 2 finds the password");
    assert_eq!(r.password, pwd("b"));
    let log = tool.log.borrow();
    assert_eq!(
        *log,
        vec![Call::Probe(a("a")), Call::Extract(a("a")), Call::Extract(a("b"))]
    );
    let extracts_of_a = log.iter().filter(|c| **c == Call::Extract(a("a"))).count();
    assert_eq!(extracts_of_a, 1);
}

#[test]
fn misleading_probe_with_single_candidate_fails() {
    let db = PasswordDatabase::create(vec![pwd("a")]);
    let tool = Scripted::new(
        vec![(a("a"), Ok(PasswordAttempt::Correct))],
        vec![(a("a"), Ok(PasswordAttempt::Incorrect))],
    );
    let r = run(&db, &tool);
    assert!(matches!(r, Err(ExtractError::NoPassword)));
    assert_eq!(*tool.log.borrow(), vec![Call::Probe(a("a")), Call::Extract(a("a"))]);
}

#[test]
fn corrupt_probe_aborts_at_once() {
    let db = PasswordDatabase::create(vec![pwd("a"), pwd("b"), pwd("c")]);
    let tool = Scripted::new(vec![(a("a"), Ok(PasswordAttempt::CorruptArchive))], vec![]);
    let r = run(&db, &tool);
    assert!(matches!(r, Err(ExtractError::Incomplete)));
    // no other candidate is tried after the corrupt answer
    assert_eq!(*tool.log.borrow(), vec![Call::Probe(a("a"))]);
}

#[test]
fn corrupt_confirmation_aborts() {
    let db = PasswordDatabase::create(vec![pwd("a"), pwd("b")]);
    let tool = Scripted::new(
        vec![(a("a"), Ok(PasswordAttempt::Correct))],
        vec![(a("a"), Ok(PasswordAttempt::CorruptArchive))],
    );
    let r = run(&db, &tool);
    assert!(matches!(r, Err(ExtractError::Incomplete)));
    assert_eq!(*tool.log.borrow(), vec![Call::Probe(a("a")), Call::Extract(a("a"))]);
}

#[test]
fn corrupt_extraction_in_phase_two_aborts() {
    let db = PasswordDatabase::create(vec![pwd("a"), pwd("b")]);
    let tool = Scripted::new(
        vec![],
        vec![(a("a"), Ok(PasswordAttempt::CorruptArchive))],
    );
    let r = run(&db, &tool);
    assert!(matches!(r, Err(ExtractError::Incomplete)));
    assert_eq!(
        *tool.log.borrow(),
        vec![Call::Probe(a("a")), Call::Probe(a("b")), Call::Extract(a("a"))]
    );
}

#[test]
fn exhausted_candidates_fail_with_no_password() {
    let db = PasswordDatabase::create(vec![pwd("a"), pwd("b")]);
    let tool = Scripted::new(vec![], vec![]);
    let r = run(&db, &tool);
    assert!(matches!(r, Err(ExtractError::NoPassword)));
    assert_eq!(
        *tool.log.borrow(),
        vec![
            Call::Probe(a("a")),
            Call::Probe(a("b")),
            Call::Extract(a("a")),
            Call::Extract(a("b")),
        ]
    );
}

#[test]
fn tool_failure_is_forwarded() {
    let db = PasswordDatabase::create(vec![pwd("a")]);
    let tool = Scripted::new(vec![(a("a"), Err("spawn failed".to_string()))], vec![]);
    let r = run(&db, &tool);
    match r {
        Err(ExtractError::Forwarded(msg)) => assert_eq!(msg, "spawn failed"),
        other => panic!("expected a forwarded error, got {:?}", other),
    }
}

#[test]
fn step_maps_corrupt_to_incomplete() {
    let from_probe = discovery_step(
        DiscoveryState::Probing { idx: 0 },
        3,
        PasswordAttempt::CorruptArchive,
    );
    assert_eq!(from_probe, DiscoveryState::FailedIncomplete);
    let from_retry = discovery_step(
        DiscoveryState::Retrying { idx: 2 },
        3,
        PasswordAttempt::CorruptArchive,
    );
    assert_eq!(from_retry, DiscoveryState::FailedIncomplete);
}

#[test]
fn step_skips_the_excluded_candidate() {
    // candidate 0 was set aside; after candidate 1 fails, phase 2 moves to 2
    let s = discovery_step(
        DiscoveryState::RetryingExcluding { idx: 1, excluded: 0 },
        3,
        PasswordAttempt::Incorrect,
    );
    assert_eq!(s, DiscoveryState::RetryingExcluding { idx: 2, excluded: 0 });
    // the jump over the excluded index itself
    let s = discovery_step(
        DiscoveryState::RetryingExcluding { idx: 0, excluded: 1 },
        3,
        PasswordAttempt::Incorrect,
    );
    assert_eq!(s, DiscoveryState::RetryingExcluding { idx: 2, excluded: 1 });
}

#[test]
fn errors_describe_themselves() {
    assert_eq!(ExtractError::NoPassword.describe(), "no password found");
    assert_eq!(ExtractError::Incomplete.describe(), "incomplete archive");
    assert_eq!(ExtractError::Encoding.describe(), "invalid encoding");
    assert_eq!(
        ExtractError::Forwarded("spawn failed".to_string()).describe(),
        "spawn failed"
    );
}
