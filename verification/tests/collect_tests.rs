use git_changelog::collect::{
    choose_base, commit_range, nonempty_trimmed_lines, parse_trailing_pr_number, pr_commits_endpoint,
    pr_endpoint, select_pr_commits, CollectError,
};

#[test]
fn trailing_pr_number_from_squash_subject() {
    assert_eq!(parse_trailing_pr_number("Add a feature (#123)"), Some(123));
    assert_eq!(parse_trailing_pr_number("Add a feature (#123)  \n"), Some(123));
    assert_eq!(parse_trailing_pr_number("Fix (#1) again (#42)"), Some(42));
}

#[test]
fn trailing_pr_number_rejects_other_subjects() {
    assert_eq!(parse_trailing_pr_number("Add a feature"), None);
    assert_eq!(parse_trailing_pr_number("Add a feature (#)"), None);
    assert_eq!(parse_trailing_pr_number("Add a feature (#12a)"), None);
    assert_eq!(parse_trailing_pr_number("Add a feature (#12) trailing"), None);
    assert_eq!(parse_trailing_pr_number("Add a feature (12)"), None);
    assert_eq!(parse_trailing_pr_number("Big (#99999999999999999999)"), None);
}

#[test]
fn trailing_pr_number_reads_back_rendered_number() {
    for n in [0u64, 7, 1234, u64::MAX] {
        let subject = format!("Some title (#{})", n);
        assert_eq!(parse_trailing_pr_number(&subject), Some(n));
    }
}

#[test]
fn base_is_marker_or_since_but_not_both() {
    assert_eq!(
        choose_base(Some("abc".to_string()), Some("v1".to_string())),
        Err(CollectError::SinceWithMarker)
    );
    assert_eq!(choose_base(Some("abc".to_string()), None), Ok("abc".to_string()));
    assert_eq!(choose_base(None, Some("v1".to_string())), Ok("v1".to_string()));
    assert_eq!(choose_base(None, None), Err(CollectError::NoStartingPoint));
}

#[test]
fn git_output_lines_trimmed_and_nonempty() {
    let out = nonempty_trimmed_lines("  a1 \n\n b2\r\n   \nc3");
    assert_eq!(out, vec!["a1".to_string(), "b2".to_string(), "c3".to_string()]);
    assert!(nonempty_trimmed_lines("").is_empty());
}

#[test]
fn pr_commits_selected_once_in_order() {
    let commits = vec![
        ("s1".to_string(), "First (#10)\n".to_string()),
        ("s2".to_string(), "Not a merge".to_string()),
        ("s3".to_string(), "Second (#5)".to_string()),
        ("s4".to_string(), "Revert of first (#10)".to_string()),
    ];
    let selected = select_pr_commits(&commits);
    assert_eq!(selected, vec![(10, "s1".to_string()), (5, "s3".to_string())]);
}

#[test]
fn endpoints_and_range() {
    assert_eq!(pr_endpoint("owner/repo", 42), "/repos/owner/repo/pulls/42");
    assert_eq!(
        pr_commits_endpoint("owner/repo", 42),
        "/repos/owner/repo/pulls/42/commits?per_page=100"
    );
    assert_eq!(commit_range("abc123"), "abc123..HEAD");
}
