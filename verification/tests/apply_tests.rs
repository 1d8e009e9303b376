use git_changelog::apply::{marker_base_content, status_is_dirty, summary_lines};
use git_changelog::process::{ProcessOutput, Summary};

fn empty_summary() -> Summary {
    Summary { entries_added: Vec::new(), placeholders: 0, none_skipped: 0 }
}

#[test]
fn staged_only_changes_are_clean() {
    assert!(!status_is_dirty(""));
    assert!(!status_is_dirty("M  CHANGELOG.md\n"));
    assert!(!status_is_dirty("A  CHANGELOG.md"));
}

#[test]
fn unstaged_changes_are_dirty() {
    assert!(status_is_dirty(" M CHANGELOG.md\n"));
    assert!(status_is_dirty("MM CHANGELOG.md\n"));
    assert!(status_is_dirty("M  other.md\n?? CHANGELOG.md\n"));
}

#[test]
fn marker_goes_into_updated_then_current_content() {
    let output = ProcessOutput {
        updated: vec![("docs/../CHANGELOG.md".to_string(), "other".to_string()), ("CHANGELOG.md".to_string(), "new".to_string())],
        summary: empty_summary(),
    };
    let current = vec![("CHANGELOG.md".to_string(), "old".to_string())];
    assert_eq!(marker_base_content(&output, &current, "CHANGELOG.md"), "new");

    let unchanged = ProcessOutput { updated: Vec::new(), summary: empty_summary() };
    assert_eq!(marker_base_content(&unchanged, &current, "CHANGELOG.md"), "old");
    assert_eq!(marker_base_content(&unchanged, &Vec::new(), "CHANGELOG.md"), "");
}

#[test]
fn summary_lines_count_entries() {
    let summary = Summary {
        entries_added: vec![("CHANGELOG.md".to_string(), 1), ("sub/CHANGELOG.md".to_string(), 3)],
        placeholders: 2,
        none_skipped: 0,
    };
    assert_eq!(
        summary_lines(&summary),
        vec![
            "git-changelog summary:".to_string(),
            "  CHANGELOG.md: 1 entry".to_string(),
            "  sub/CHANGELOG.md: 3 entries".to_string(),
            "  placeholders: 2".to_string(),
            "  skipped (Changelog: None): 0".to_string(),
        ]
    );
}
