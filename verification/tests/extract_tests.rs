use git_changelog::extract::{extract_changelog, ChangelogSection, Extraction};

#[test]
fn extraction_well_formed_blockquote() {
    let body = "**Description**\n\nSome text.\n\n**Changelog**\n\n> ### Added\n>\n> - New thing.\n> - Another thing.\n";
    let extraction = extract_changelog(Some(body));
    assert_eq!(
        extraction,
        Extraction::Sections(vec![ChangelogSection {
            name: "Added".to_owned(),
            bullets: vec!["New thing.".to_owned(), "Another thing.".to_owned()],
        }])
    );
}

#[test]
fn extraction_bold_optional_marker() {
    let body = "Changelog\n\n> ### Fixed\n>\n> - Fixed a bug.\n";
    let extraction = extract_changelog(Some(body));
    assert_eq!(
        extraction,
        Extraction::Sections(vec![ChangelogSection {
            name: "Fixed".to_owned(),
            bullets: vec!["Fixed a bug.".to_owned()],
        }])
    );
}

#[test]
fn extraction_none_opt_out() {
    assert_eq!(extract_changelog(Some("**Changelog: None**")), Extraction::NoneOptOut);
    assert_eq!(extract_changelog(Some("Changelog: None")), Extraction::NoneOptOut);
}

#[test]
fn extraction_missing_marker_is_placeholder() {
    assert_eq!(extract_changelog(Some("Just a description, no marker.")), Extraction::Placeholder);
    assert_eq!(extract_changelog(None), Extraction::Placeholder);
}

#[test]
fn extraction_malformed_blockquote_is_placeholder() {
    // Marker present, but no blockquote follows.
    assert_eq!(extract_changelog(Some("**Changelog**\n\nNo blockquote here.")), Extraction::Placeholder);
    // Marker present, blockquote present, but no bullets.
    assert_eq!(
        extract_changelog(Some("**Changelog**\n\n> ### Added\n>\n")),
        Extraction::Placeholder
    );
}

#[test]
fn extraction_strips_html_comments_only() {
    let body = "**Changelog**\n\n> ### Added <!-- Or Fixed, Changed, etc. -->\n>\n> - [<!-- Delete as appropriate. -->Breaking change:] Entry text.\n";
    let extraction = extract_changelog(Some(body));
    assert_eq!(
        extraction,
        Extraction::Sections(vec![ChangelogSection {
            name: "Added".to_owned(),
            bullets: vec!["[Breaking change:] Entry text.".to_owned()],
        }])
    );
}

#[test]
fn extraction_marker_is_case_insensitive_and_first_marker_wins() {
    assert_eq!(extract_changelog(Some("CHANGELOG: NONE\n\n**Changelog**\n\n> ### Added\n> - x\n")), Extraction::NoneOptOut);
    assert_eq!(
        extract_changelog(Some("  **changelog**  \n> ### Added\n> - x\n\nChangelog: None\n")),
        Extraction::Sections(vec![ChangelogSection { name: "Added".to_owned(), bullets: vec!["x".to_owned()] }])
    );
}

#[test]
fn extraction_bullet_before_any_section_is_ignored() {
    assert_eq!(extract_changelog(Some("Changelog\n> - orphan\n")), Extraction::Placeholder);
}

#[test]
fn extraction_unterminated_comment_runs_to_end() {
    assert_eq!(
        extract_changelog(Some("Changelog\n> ### Added\n> - kept <!-- dropped\n> - also dropped\n")),
        Extraction::Sections(vec![ChangelogSection { name: "Added".to_owned(), bullets: vec!["kept".to_owned()] }])
    );
}

#[test]
fn extraction_crlf_lines() {
    assert_eq!(
        extract_changelog(Some("**Changelog**\r\n\r\n> ### Fixed\r\n> - Windows line endings.\r\n")),
        Extraction::Sections(vec![ChangelogSection { name: "Fixed".to_owned(), bullets: vec!["Windows line endings.".to_owned()] }])
    );
}
