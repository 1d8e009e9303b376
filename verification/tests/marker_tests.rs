use git_changelog::marker::{read_marker, set_marker};

#[test]
fn marker_inserted_under_heading_outside_unreleased() {
    let content = "# Changelog\n\n## [Unreleased]\n\nSome prose.\n";
    let updated = set_marker(content, "abc123");
    let lines: Vec<&str> = updated.lines().collect();
    assert_eq!(lines[0], "# Changelog");
    assert_eq!(lines[1], "<!-- git-changelog:last-commit abc123 -->");
    // Still outside `## [Unreleased]`.
    let marker_idx = lines
        .iter()
        .position(|l| l.contains("git-changelog:last-commit"))
        .unwrap();
    let unreleased_idx = lines
        .iter()
        .position(|l| l.trim() == "## [Unreleased]")
        .unwrap();
    assert!(marker_idx < unreleased_idx);
}

#[test]
fn marker_updates_existing_value() {
    let content = "# Changelog\n<!-- git-changelog:last-commit old -->\n\n## [Unreleased]\n";
    let updated = set_marker(content, "new123");
    assert!(updated.contains("<!-- git-changelog:last-commit new123 -->"));
    assert!(!updated.contains("old"));
}

#[test]
fn marker_read_back_after_set() {
    for content in ["", "# Changelog\n", "no heading\nat all", "# Changelog\r\n<!-- git-changelog:last-commit x -->\r\n", "a\n\n"] {
        let updated = set_marker(content, "deadbeef");
        assert_eq!(read_marker(&updated), Some("deadbeef".to_owned()));
    }
}

#[test]
fn marker_read_finds_first_marker_and_trims() {
    let content = "intro\n   <!-- git-changelog:last-commit first -->  \n<!-- git-changelog:last-commit second -->\n";
    assert_eq!(read_marker(content), Some("first".to_owned()));
    assert_eq!(read_marker("# Changelog\n"), None);
}

#[test]
fn marker_added_at_top_without_heading() {
    assert_eq!(set_marker("Intro", "s1"), "<!-- git-changelog:last-commit s1 -->\nIntro\n");
    assert_eq!(set_marker("", "s1"), "<!-- git-changelog:last-commit s1 -->\n");
    // An existing marker in a file without a final newline keeps that shape.
    assert_eq!(
        set_marker("<!-- git-changelog:last-commit a -->", "b"),
        "<!-- git-changelog:last-commit b -->"
    );
}
