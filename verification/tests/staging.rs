use smartextract::rooted_tempdir::{create_rooted_tempdir, pick_free_name, RootedTempDir};
use smartextract::temp_extract::{can_move_from_tempdir, staging_disposition, StagingDisposition};

fn listing(names: &[&str]) -> Vec<String> {
    names.iter().map(|s| s.to_string()).collect()
}

#[test]
fn preferred_name_taken_when_free() {
    let name = pick_free_name(&"show".to_string(), &listing(&["a", "b"]));
    assert_eq!(name, "show");
}

#[test]
fn collision_probes_numbered_names() {
    let name = pick_free_name(&"show".to_string(), &listing(&["show"]));
    assert_eq!(name, "show1");
    let name = pick_free_name(&"show".to_string(), &listing(&["show", "show1", "show2"]));
    assert_eq!(name, "show3");
}

#[test]
fn probing_skips_only_taken_names() {
    let name = pick_free_name(&"out".to_string(), &listing(&["out", "out2"]));
    assert_eq!(name, "out1");
}

#[test]
fn tempdir_path_is_under_the_parent() {
    let dir = create_rooted_tempdir(
        &"/data".to_string(),
        &"show".to_string(),
        &listing(&["show"]),
    );
    assert_eq!(dir.path, "/data/show1");
    assert!(!dir.kept);
}

#[test]
fn keep_marks_the_directory() {
    let mut dir = create_rooted_tempdir(&"/d".to_string(), &"x".to_string(), &listing(&[]));
    assert_eq!(dir.path, "/d/x");
    assert!(!dir.is_retained());
    dir.keep();
    assert!(dir.is_retained());
    assert_eq!(dir.path, "/d/x");
}

#[test]
fn tempdir_struct_is_plain_data() {
    let dir = RootedTempDir { path: "/tmp/x".to_string(), kept: true };
    assert!(dir.is_retained());
}

#[test]
fn merge_aborts_on_any_collision() {
    let staged = listing(&["one", "two"]);
    assert!(!can_move_from_tempdir(&staged, &listing(&["zero", "two"])));
    assert!(!can_move_from_tempdir(&staged, &listing(&["one"])));
}

#[test]
fn merge_allowed_without_collisions() {
    let staged = listing(&["one", "two"]);
    assert!(can_move_from_tempdir(&staged, &listing(&["three"])));
    assert!(can_move_from_tempdir(&staged, &listing(&[])));
    assert!(can_move_from_tempdir(&listing(&[]), &listing(&["anything"])));
}

#[test]
fn disposition_merges_small_results_only() {
    assert_eq!(staging_disposition(false, 0), StagingDisposition::MergeIntoParent);
    assert_eq!(staging_disposition(false, 1), StagingDisposition::MergeIntoParent);
    assert_eq!(staging_disposition(false, 2), StagingDisposition::KeepDirectory);
    assert_eq!(staging_disposition(true, 0), StagingDisposition::KeepDirectory);
    assert_eq!(staging_disposition(true, 1), StagingDisposition::KeepDirectory);
}
