use file_organizer::config::OrganizeError;
use file_organizer::organizer::{FileEntry, FileOrganizer, MoveOutcome, Summary};
use file_organizer::organizer::{base_name, summarize};
use file_organizer::text::lowered_extension_of;

fn org(source_dir: &str, recursive: bool, config: &str) -> FileOrganizer {
    FileOrganizer::new(source_dir.to_string(), recursive, config).expect("config should parse")
}

fn entry(parent: &str, name: &str) -> FileEntry {
    FileEntry { parent: parent.to_string(), name: name.to_string() }
}

#[test]
fn scenario_flat_run() {
    let o = org("src", false, r#"{"Documents": ["txt"], "Images": ["jpg"]}"#);
    let entries = vec![
        entry("src", "notes.txt"),
        entry("src", "photo.JPG"),
        entry("src", "archive.tar"),
    ];
    let plan = o.organize(&entries);
    assert_eq!(plan.len(), 3);
    assert_eq!(plan[0].category, "Documents");
    assert_eq!(plan[1].category, "Images");
    assert_eq!(plan[2].category, "Others");
    for step in &plan {
        assert_eq!(step.base, "src");
        assert!(!step.already_placed);
    }
    assert_eq!(plan[0].name, "notes.txt");
    assert_eq!(plan[1].name, "photo.JPG");
    assert_eq!(plan[2].name, "archive.tar");
}

#[test]
fn case_insensitive_classification() {
    let o = org("src", false, r#"{"Documents": ["pdf"]}"#);
    assert_eq!(o.categorize_file("REPORT.PDF"), "Documents");
    assert_eq!(o.categorize_file("report.pdf"), "Documents");
    assert_eq!(
        o.categorize_file("REPORT.PDF"),
        o.categorize_file("report.pdf")
    );
}

#[test]
fn no_extension_goes_to_others() {
    let o = org("src", false, r#"{"Documents": ["txt"], "Images": ["jpg"]}"#);
    assert_eq!(o.categorize_file("README"), "Others");
    assert_eq!(o.categorize_file("Makefile"), "Others");
    assert_eq!(o.categorize_file("trailing."), "Others");
}

#[test]
fn first_match_wins() {
    let o = org("src", false, r#"{"Notes": ["txt"], "Documents": ["txt", "pdf"]}"#);
    assert_eq!(o.categorize_file("a.txt"), "Notes");
    assert_eq!(o.categorize_file("a.pdf"), "Documents");
    // The tie-break is stable across repeated lookups with the same table.
    for _ in 0..3 {
        assert_eq!(o.categorize_file("a.txt"), "Notes");
    }
}

#[test]
fn recursive_mode_preserves_nesting() {
    let o = org("src", true, r#"{"Images": ["jpg"]}"#);
    let plan = o.organize(&vec![entry("src/sub", "a.jpg")]);
    assert_eq!(plan[0].base, "src/sub");
    assert_eq!(plan[0].category, "Images");
    assert!(!plan[0].already_placed);
}

#[test]
fn non_recursive_mode_targets_source_dir() {
    let o = org("src", false, r#"{"Images": ["jpg"]}"#);
    let plan = o.organize(&vec![entry("src/sub", "a.jpg")]);
    assert_eq!(plan[0].base, "src");
}

#[test]
fn recursive_rerun_skips_placed_files() {
    let o = org("src", true, r#"{"Images": ["jpg"]}"#);
    // After a first run, a.jpg sits at src/sub/Images/a.jpg; a second
    // recursive run recognizes it as placed and plans no move for it.
    let plan = o.organize(&vec![entry("src/sub/Images", "a.jpg")]);
    assert!(plan[0].already_placed);
    // A file of another kind inside that folder is still picked up.
    let plan = o.organize(&vec![entry("src/sub/Images", "notes.txt")]);
    assert!(!plan[0].already_placed);
    assert_eq!(plan[0].category, "Others");
}

#[test]
fn extension_after_last_dot_only() {
    let o = org("src", false, r#"{"Archives": ["gz"], "Tars": ["tar"]}"#);
    assert_eq!(o.categorize_file("backup.tar.gz"), "Archives");
}

#[test]
fn config_extensions_are_normalized() {
    let o = org("src", false, r#"{"Documents": [".TXT", "Pdf"]}"#);
    assert_eq!(o.extensions.len(), 1);
    assert_eq!(o.extensions[0].name, "Documents");
    assert_eq!(o.extensions[0].extensions, vec!["txt".to_string(), "pdf".to_string()]);
    assert_eq!(o.categorize_file("a.txt"), "Documents");
    assert_eq!(o.categorize_file("b.PDF"), "Documents");
}

#[test]
fn empty_extension_entries_are_dropped() {
    let o = org("src", false, r#"{"Documents": ["", "."]}"#);
    assert_eq!(o.extensions[0].extensions.len(), 0);
    assert_eq!(o.categorize_file("README"), "Others");
}

#[test]
fn empty_config_sends_everything_to_others() {
    let o = org("src", false, "{}");
    assert_eq!(o.extensions.len(), 0);
    assert_eq!(o.categorize_file("a.txt"), "Others");
}

#[test]
fn malformed_config_is_rejected() {
    for bad in [
        "",
        "[]",
        "{",
        r#"{"Documents": ["txt"]"#,
        r#"{"Documents": "txt"}"#,
        r#"{"Documents": ["txt"],}"#,
        r#"{"Documents": [3]}"#,
        r#"{"Docs\x": ["txt"]}"#,
        r#"{"Docs\u0041": ["txt"]}"#,
        r#"{"Documents": ["txt"]} extra"#,
    ] {
        let r = FileOrganizer::new("src".to_string(), false, bad);
        assert_eq!(r.unwrap_err(), OrganizeError::ConfigParseError, "accepted: {bad}");
    }
}

#[test]
fn config_accepts_whitespace_and_escapes() {
    let o = org(
        "src",
        false,
        " \t\r\n{ \"My \\\"Docs\\\"\" : [ \"txt\" , \"md\" ] ,\n \"Tabs\\t\" : [ ] }\n",
    );
    assert_eq!(o.extensions.len(), 2);
    assert_eq!(o.extensions[0].name, "My \"Docs\"");
    assert_eq!(o.extensions[0].extensions, vec!["txt".to_string(), "md".to_string()]);
    assert_eq!(o.extensions[1].name, "Tabs\t");
    assert_eq!(o.extensions[1].extensions.len(), 0);
}

#[test]
fn duplicate_category_order_is_kept() {
    let o = org("src", false, r#"{"A": ["x"], "B": ["x", "y"]}"#);
    assert_eq!(o.categorize_file("f.x"), "A");
    assert_eq!(o.categorize_file("f.y"), "B");
}

#[test]
fn lowered_extension_is_text_after_last_dot() {
    assert_eq!(lowered_extension_of("photo.JPG"), "jpg");
    assert_eq!(lowered_extension_of("backup.tar.gz"), "gz");
    assert_eq!(lowered_extension_of("README"), "");
    assert_eq!(lowered_extension_of("trailing."), "");
    assert_eq!(lowered_extension_of(".gitignore"), "gitignore");
}

#[test]
fn base_name_takes_last_component() {
    assert_eq!(base_name("a/b/c"), "c");
    assert_eq!(base_name("plain"), "plain");
    assert_eq!(base_name("a/"), "");
    assert_eq!(base_name(""), "");
}

#[test]
fn summarize_counts_outcomes() {
    let outcomes = vec![
        MoveOutcome::Moved,
        MoveOutcome::Failed,
        MoveOutcome::Moved,
        MoveOutcome::Skipped,
        MoveOutcome::Moved,
    ];
    let s = summarize(&outcomes);
    assert_eq!(s, Summary { moved: 3, skipped: 1, failed: 1 });
    let none = summarize(&Vec::new());
    assert_eq!(none, Summary { moved: 0, skipped: 0, failed: 0 });
}

#[test]
fn organizer_records_its_run_settings() {
    let o = org("some/dir", true, r#"{"Images": ["jpg"]}"#);
    assert_eq!(o.source_dir, "some/dir");
    assert!(o.recursive);
}
