use smartextract::archives::{detect_archive, Archive, ArchiveKind};

fn listing(names: &[&str]) -> Vec<String> {
    names.iter().map(|s| s.to_string()).collect()
}

fn detect(name: &str, exact: bool, names: &[&str]) -> Option<Archive> {
    detect_archive(&name.to_string(), exact, &listing(names))
}

#[test]
fn single_volume_rar() {
    let a = detect("foo.rar", true, &["foo.rar"]).expect("foo.rar is an archive");
    assert!(matches!(a.kind, ArchiveKind::RAR));
    assert_eq!(a.basename, "foo");
    assert_eq!(a.parts, vec!["foo.rar".to_string()]);
}

#[test]
fn single_volume_7z() {
    let a = detect("foo.7z", true, &["foo.7z", "bar.txt"]).expect("foo.7z is an archive");
    assert!(matches!(a.kind, ArchiveKind::P7Z));
    assert_eq!(a.basename, "foo");
    assert_eq!(a.parts, vec!["foo.7z".to_string()]);
}

#[test]
fn single_volume_upper_case() {
    let a = detect("FOO.RAR", true, &["FOO.RAR"]).expect("case-folded suffix matches");
    assert!(matches!(a.kind, ArchiveKind::RAR));
    assert_eq!(a.basename, "foo");
    assert_eq!(a.parts, vec!["FOO.RAR".to_string()]);
}

#[test]
fn bare_suffix_is_unnamed() {
    let a = detect("rar", true, &["rar"]).expect("a bare suffix is a standalone archive");
    assert_eq!(a.basename, "unnamed");
    assert_eq!(a.parts, vec!["rar".to_string()]);
}

#[test]
fn dotted_basename_kept() {
    let a = detect("a.b.rar", true, &["a.b.rar"]).expect("extra segments stay in the basename");
    assert_eq!(a.basename, "a.b");
    assert_eq!(a.parts, vec!["a.b.rar".to_string()]);
}

#[test]
fn unknown_suffix_rejected() {
    assert!(detect("foo.txt", true, &["foo.txt"]).is_none());
    assert!(detect("foo.tar.gz", true, &["foo.tar.gz"]).is_none());
    assert!(detect("foo", true, &["foo"]).is_none());
}

#[test]
fn multi_volume_in_order_stops_at_gap() {
    let names = [
        "show.part003.rar",
        "show.part001.rar",
        "show.part002.rar",
        "show.part005.rar",
        "other.txt",
    ];
    let a = detect("show.part001.rar", true, &names).expect("first volume starts the set");
    assert!(matches!(a.kind, ArchiveKind::RAR));
    assert_eq!(a.basename, "show");
    assert_eq!(
        a.parts,
        vec![
            "show.part001.rar".to_string(),
            "show.part002.rar".to_string(),
            "show.part003.rar".to_string(),
        ]
    );
}

#[test]
fn multi_volume_single_digit_padding() {
    let names = ["a.part1.rar", "a.part2.rar", "a.part03.rar"];
    let a = detect("a.part1.rar", true, &names).expect("part1 starts the set");
    assert_eq!(a.basename, "a");
    // the zero padding of the first volume is held fixed: part03 is no sibling
    assert_eq!(
        a.parts,
        vec!["a.part1.rar".to_string(), "a.part2.rar".to_string()]
    );
}

#[test]
fn later_volume_rejected() {
    assert!(detect("show.part2.rar", true, &["show.part2.rar"]).is_none());
    assert!(detect("show.part03.rar", true, &["show.part03.rar"]).is_none());
    assert!(detect("show.part002.rar", true, &["show.part002.rar", "show.part001.rar"]).is_none());
}

#[test]
fn part_without_digits_is_standalone() {
    let a = detect("x.partly.rar", true, &["x.partly.rar"]).expect("not a part marker");
    assert_eq!(a.basename, "x.partly");
    assert_eq!(a.parts, vec!["x.partly.rar".to_string()]);
}

#[test]
fn suffix_numbered_set() {
    let names = ["show.rar.001", "show.rar.002", "show.rar.004"];
    let a = detect("show.rar.001", true, &names).expect("suffix-numbered first volume");
    assert!(matches!(a.kind, ArchiveKind::RAR));
    assert_eq!(a.basename, "show");
    assert_eq!(
        a.parts,
        vec!["show.rar.001".to_string(), "show.rar.002".to_string()]
    );
}

#[test]
fn suffix_numbered_later_volume_rejected() {
    assert!(detect("show.rar.002", true, &["show.rar.002"]).is_none());
    assert!(detect("show.rar.010", true, &["show.rar.010"]).is_none());
}

#[test]
fn inexact_name_rejects_multi_volume_only() {
    let names = ["show.part1.rar", "show.part2.rar"];
    assert!(detect("show.part1.rar", false, &names).is_none());
    assert!(detect("show.rar.001", false, &["show.rar.001"]).is_none());
    let single = detect("foo.rar", false, &["foo.rar"]);
    assert!(single.is_some());
}

#[test]
fn from_suffix_known_kinds() {
    assert!(matches!(
        ArchiveKind::from_suffix(&"rar".to_string()),
        Some(ArchiveKind::RAR)
    ));
    assert!(matches!(
        ArchiveKind::from_suffix(&"7z".to_string()),
        Some(ArchiveKind::P7Z)
    ));
    assert!(ArchiveKind::from_suffix(&"zip".to_string()).is_none());
    assert!(ArchiveKind::from_suffix(&"RAR".to_string()).is_none());
}

#[test]
fn archive_create_passes_fields_through() {
    let a = Archive::create(
        "base".to_string(),
        vec!["base.rar".to_string()],
        ArchiveKind::RAR,
    )
    .expect("create always yields an archive");
    assert_eq!(a.basename, "base");
    assert_eq!(a.parts, vec!["base.rar".to_string()]);
    assert!(matches!(a.kind, ArchiveKind::RAR));
}
