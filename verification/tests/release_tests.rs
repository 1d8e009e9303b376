use git_changelog::release::extract_version_section;

const CHANGELOG: &str = "\
# Changelog

## [Unreleased]

This release has an [MSRV][] of 1.88.

## [0.9.0][] - 2026-05-15

### Fixed

- Blurry image rendering. ([#1606][] by [@Keavon][] and [@xStrom][])

## [0.8.0][] - 2026-03-20

This release has an [MSRV][] of 1.92.

### Changed

- Breaking change: `wgpu` has been updated to v28. ([#1492][] by [@xStrom][])

[MSRV]: README.md#minimum-supported-rust-version-msrv

[Unreleased]: https://github.com/linebender/vello/compare/v0.9.0...HEAD
[0.9.0]: https://github.com/linebender/vello/compare/v0.8.0...v0.9.0
[0.8.0]: https://github.com/linebender/vello/compare/v0.7.0...v0.8.0

[@Keavon]: https://github.com/Keavon
[@xStrom]: https://github.com/xStrom

[#1492]: https://github.com/linebender/vello/pull/1492
[#1606]: https://github.com/linebender/vello/pull/1606
";

#[test]
fn release_notes_shorten_people_and_pull_requests() {
    let notes = extract_version_section(CHANGELOG, "0.9.0").expect("section exists");
    assert!(notes.ends_with('\n'));
    assert_eq!(
        notes.trim(),
        "### Fixed\n\n- Blurry image rendering. (#1606 by @Keavon and @xStrom)"
    );
}

#[test]
fn release_notes_keep_used_definitions_only() {
    let notes = extract_version_section(CHANGELOG, "0.8.0").expect("section exists");
    assert_eq!(
        notes.trim(),
        "This release has an [MSRV][] of 1.92.\n\n### Changed\n\n- Breaking change: `wgpu` has been updated to v28. (#1492 by @xStrom)\n\n[MSRV]: README.md#minimum-supported-rust-version-msrv"
    );
}

#[test]
fn release_notes_section_ends_at_next_heading() {
    let notes = extract_version_section(CHANGELOG, "Unreleased").expect("section exists");
    assert_eq!(
        notes.trim(),
        "This release has an [MSRV][] of 1.88.\n\n[MSRV]: README.md#minimum-supported-rust-version-msrv"
    );
}

#[test]
fn release_notes_missing_version() {
    assert_eq!(extract_version_section(CHANGELOG, "2.0.0"), None);
}

#[test]
fn release_notes_ambiguous_version() {
    let input = "# Changelog\n\n## 1.0\n\nA\n\n## 1.0.1\n\nB\n";
    assert_eq!(extract_version_section(input, "1.0"), None);
    assert_eq!(extract_version_section(input, "1.0.1").map(|s| s.trim().to_string()), Some("B".to_string()));
}

#[test]
fn release_notes_inline_links() {
    let input = "## v2\n\n- Thanks [@XStrom](https://github.com/xstrom), see [#7](https://example.com/issues/7) and [docs](https://example.com).\n- Not a login [@bob](https://github.com/alice).\n";
    let notes = extract_version_section(input, "v2").expect("section exists");
    assert_eq!(
        notes.trim_start(),
        "- Thanks @XStrom, see #7 and [docs](https://example.com).\n- Not a login [@bob](https://github.com/alice).\n"
    );
}
