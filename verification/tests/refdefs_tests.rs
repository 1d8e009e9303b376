use git_changelog::refdefs::update_reference_defs;

#[test]
fn reference_defs_preserve_trailing_non_definition_content() {
    // A definition is followed by prose. Rebuilding the def block must NOT drop that prose.
    let content = "\
# Changelog

## [Unreleased]

### Added

- Thing. ([#5][] by [@x][])

[#5]: https://example.com/pull/5

A closing note that is not a definition.
";
    let pr_numbers = vec![7_u64];
    let authors: Vec<String> = Vec::new();
    let out = update_reference_defs(content, "owner/repo", &pr_numbers, &authors)
        .expect("update should succeed");

    assert!(
        out.contains("A closing note that is not a definition."),
        "trailing prose must be preserved, not dropped"
    );
    assert!(out.contains("[#5]: https://example.com/pull/5"), "existing def preserved");
    assert!(out.contains("[#7]: https://github.com/owner/repo/pull/7"), "new def added");
}

#[test]
fn reference_defs_do_not_reorder_existing_groups() {
    // Non-canonical layout: the PR group appears BEFORE the author group. Insertion must
    // slot new defs into each group in place, never rewriting/swapping the existing order.
    let content = "\
# Changelog

## [Unreleased]

### Added

- A. ([#10][] by [@bob][])

[#10]: https://example.com/pull/10

[@bob]: https://github.com/bob
";
    let pr_numbers = vec![20_u64];
    let authors = vec!["amy".to_owned()];
    let out = update_reference_defs(content, "owner/repo", &pr_numbers, &authors)
        .expect("update should succeed");

    // Existing group order preserved: PR group still precedes the author group.
    let pr_10 = out.find("[#10]:").unwrap();
    let author_bob = out.find("[@bob]:").unwrap();
    assert!(pr_10 < author_bob, "existing group order must be preserved");

    // New defs land in their own groups, sorted.
    assert!(out.contains("[#20]: https://github.com/owner/repo/pull/20"));
    let author_amy = out.find("[@amy]:").unwrap();
    assert!(author_amy < author_bob, "amy sorts before bob within the author group");
}

#[test]
fn reference_defs_target_bottom_block_ignoring_stray_defs() {
    // A stray `[#3]` definition sits above real content; the true definition block is at the
    // bottom. A new `[#8]` must join the BOTTOM block (after `[#5]`), not the stray `[#3]`.
    let content = "\
# Changelog

## [Unreleased]

### Added

- New. ([#8][] by [@z][])

[#3]: https://example.com/pull/3

Some prose that breaks the definition block.

[#5]: https://example.com/pull/5

[@z]: https://github.com/z
";
    let pr_numbers = vec![8_u64];
    let authors: Vec<String> = Vec::new();
    let out = update_reference_defs(content, "owner/repo", &pr_numbers, &authors)
        .expect("update should succeed");

    let stray_3 = out.find("[#3]:").unwrap();
    let prose = out.find("Some prose that breaks").unwrap();
    let bottom_5 = out.find("[#5]:").unwrap();
    let new_8 = out.find("[#8]:").unwrap();
    // The stray def and prose are preserved, and the new def is in the bottom block.
    assert!(stray_3 < prose, "stray [#3] preserved above the prose");
    assert!(prose < bottom_5, "bottom block sits after the prose");
    assert!(bottom_5 < new_8, "new [#8] joins the bottom block, after [#5]");
}

#[test]
fn reference_defs_author_group_starts_before_pr_group() {
    let content = "# Changelog\n\n[#1]: https://example.com/pull/1\n";
    let out = update_reference_defs(content, "o/r", &vec![], &vec!["zed".to_owned()]).unwrap();
    assert_eq!(
        out,
        "# Changelog\n\n[@zed]: https://github.com/zed\n\n[#1]: https://example.com/pull/1\n"
    );
}

#[test]
fn reference_defs_existing_are_not_duplicated() {
    let content = "x\n\n[@bob]: https://github.com/bob\n[#4]: https://example.com/pull/4";
    let out = update_reference_defs(content, "o/r", &vec![4], &vec!["bob".to_owned()]).unwrap();
    assert_eq!(out, content);
}

#[test]
fn reference_defs_nothing_requested_is_identity() {
    let content = "anything\r\nat all";
    assert_eq!(update_reference_defs(content, "o/r", &vec![], &vec![]).unwrap(), content);
}

#[test]
fn reference_defs_new_group_at_end() {
    let content = "# Changelog\n\nText.";
    let out = update_reference_defs(content, "o/r", &vec![12, 3], &vec![]).unwrap();
    assert_eq!(
        out,
        "# Changelog\n\nText.\n\n[#3]: https://github.com/o/r/pull/3\n[#12]: https://github.com/o/r/pull/12"
    );
}
