use git_changelog::config::Config;
use git_changelog::merge::{merge_into_unreleased, ChangelogError};
use git_changelog::process::{process, Collected, PrData};

fn changelog_fixture() -> String {
    "\
# Changelog

## [Unreleased]

This release has an [MSRV][] of 1.88.

### Added

- Existing entry one. ([#100][] by [@alice][])
- Existing entry two. ([#200][] by [@bob][])

## [0.1.0][] - 2026-01-01

Initial release.

[MSRV]: README.md#minimum-supported-rust-version-msrv

[Unreleased]: https://example.com/compare/v0.1.0...HEAD
[0.1.0]: https://example.com/compare/v0.0.0...v0.1.0

[@alice]: https://github.com/alice
[@bob]: https://github.com/bob

[#100]: https://example.com/pull/100
[#200]: https://example.com/pull/200
"
    .to_owned()
}

fn run(collected: &Collected, content: String) -> String {
    let cfg = Config::new("owner/repo", "CHANGELOG.md");
    let current = vec![("CHANGELOG.md".to_owned(), content)];
    let output = process(collected, &cfg, &current).ok().expect("process should succeed");
    output.updated_content("CHANGELOG.md").expect("file changed").clone()
}

#[test]
fn merge_sorted_insertion_with_straggler() {
    // PR #150 is a straggler that should land between #100 and #200.
    let collected = Collected {
        head_sha: "deadbeef".to_owned(),
        prs: vec![PrData {
            number: 150,
            title: "Straggler PR".to_owned(),
            body: Some("**Changelog**\n\n> ### Added\n>\n> - Straggler entry.\n".to_owned()),
            author: "carol".to_owned(),
            co_authors: Vec::new(),
            changed_paths: vec!["src/lib.rs".to_owned()],
        }],
    };
    let new_content = run(&collected, changelog_fixture());

    let added_idx = new_content.find("### Added").unwrap();
    let idx100 = new_content.find("Existing entry one").unwrap();
    let idx150 = new_content.find("Straggler entry").unwrap();
    let idx200 = new_content.find("Existing entry two").unwrap();
    assert!(added_idx < idx100 && idx100 < idx150 && idx150 < idx200, "expected ascending PR order");
    assert!(new_content.contains("([#150][] by [@carol][])"));

    // Existing entries are untouched.
    assert!(new_content.contains("- Existing entry one. ([#100][] by [@alice][])"));
    assert!(new_content.contains("- Existing entry two. ([#200][] by [@bob][])"));
}

#[test]
fn merge_creates_subsection_in_canonical_order() {
    // File has only "### Added"; adding a "Fixed" entry should create "### Fixed" *after*
    // "### Added" (canonical order), and a "Changed" entry should land *between* them.
    let collected = Collected {
        head_sha: "deadbeef".to_owned(),
        prs: vec![
            PrData {
                number: 300,
                title: "Fix something".to_owned(),
                body: Some("**Changelog**\n\n> ### Fixed\n>\n> - Fixed something.\n".to_owned()),
                author: "dave".to_owned(),
                co_authors: Vec::new(),
                changed_paths: vec!["src/lib.rs".to_owned()],
            },
            PrData {
                number: 250,
                title: "Change something".to_owned(),
                body: Some("**Changelog**\n\n> ### Changed\n>\n> - Changed something.\n".to_owned()),
                author: "erin".to_owned(),
                co_authors: Vec::new(),
                changed_paths: vec!["src/lib.rs".to_owned()],
            },
        ],
    };
    let new_content = run(&collected, changelog_fixture());

    let added_idx = new_content.find("### Added").unwrap();
    let changed_idx = new_content.find("### Changed").unwrap();
    let fixed_idx = new_content.find("### Fixed").unwrap();
    assert!(added_idx < changed_idx && changed_idx < fixed_idx, "expected canonical section order");
}

#[test]
fn merge_placeholder_is_loose_bullet_before_first_subsection() {
    let collected = Collected {
        head_sha: "deadbeef".to_owned(),
        prs: vec![PrData {
            number: 50,
            title: "Some internal refactor".to_owned(),
            body: None,
            author: "frank".to_owned(),
            co_authors: Vec::new(),
            changed_paths: vec!["src/lib.rs".to_owned()],
        }],
    };
    let new_content = run(&collected, changelog_fixture());

    let msrv_idx = new_content.find("This release has an [MSRV]").unwrap();
    let placeholder_idx = new_content.find("no-changelog: Some internal refactor").unwrap();
    let added_idx = new_content.find("### Added").unwrap();
    assert!(msrv_idx < placeholder_idx && placeholder_idx < added_idx);
    assert!(new_content.contains("([#50][] by [@frank][])"));
}

#[test]
fn reference_defs_created_deduped_and_sorted() {
    let collected = Collected {
        head_sha: "deadbeef".to_owned(),
        prs: vec![
            PrData {
                number: 150,
                title: "First".to_owned(),
                body: Some("**Changelog**\n\n> ### Added\n>\n> - Entry one.\n".to_owned()),
                author: "alice".to_owned(), // duplicate of an existing author
                co_authors: Vec::new(),
                changed_paths: vec!["src/lib.rs".to_owned()],
            },
            PrData {
                number: 50,
                title: "Second".to_owned(),
                body: Some("**Changelog**\n\n> ### Added\n>\n> - Entry two.\n".to_owned()),
                author: "zed".to_owned(),
                co_authors: vec!["amy".to_owned()],
                changed_paths: vec!["src/lib.rs".to_owned()],
            },
        ],
    };
    let new_content = run(&collected, changelog_fixture());

    // PR defs: numeric ascending, existing untouched, new ones inserted, no duplicates.
    let pr_defs: Vec<&str> = new_content.lines().filter(|l| l.starts_with("[#")).collect();
    assert_eq!(
        pr_defs,
        vec![
            "[#50]: https://github.com/owner/repo/pull/50",
            "[#100]: https://example.com/pull/100",
            "[#150]: https://github.com/owner/repo/pull/150",
            "[#200]: https://example.com/pull/200",
        ]
    );

    // Author defs: alphabetical, existing untouched, deduped (alice already existed), amy/zed added.
    let author_defs: Vec<&str> = new_content.lines().filter(|l| l.starts_with("[@")).collect();
    assert_eq!(
        author_defs,
        vec![
            "[@alice]: https://github.com/alice",
            "[@amy]: https://github.com/amy",
            "[@bob]: https://github.com/bob",
            "[@zed]: https://github.com/zed",
        ]
    );

    // MSRV / version-compare links untouched.
    assert!(new_content.contains("[MSRV]: README.md#minimum-supported-rust-version-msrv"));
    assert!(new_content.contains("[Unreleased]: https://example.com/compare/v0.1.0...HEAD"));
    assert!(new_content.contains("[0.1.0]: https://example.com/compare/v0.0.0...v0.1.0"));
}

#[test]
fn reference_defs_created_from_scratch_when_absent() {
    // A brand-new changelog (like examples/test-package/CHANGELOG.md) has no `[#N]` or
    // `[@u]` groups yet.
    let content = "\
# Changelog

## [Unreleased]

This release has an [MSRV][] of 1.88.

This package was created.

[MSRV]: README.md#minimum-supported-rust-version-msrv

[Unreleased]: https://example.com/compare/v0.1.0...HEAD
"
    .to_owned();

    let collected = Collected {
        head_sha: "deadbeef".to_owned(),
        prs: vec![PrData {
            number: 1,
            title: "First PR".to_owned(),
            body: Some("**Changelog**\n\n> ### Added\n>\n> - Something.\n".to_owned()),
            author: "alice".to_owned(),
            co_authors: Vec::new(),
            changed_paths: vec!["src/lib.rs".to_owned()],
        }],
    };
    let new_content = run(&collected, content);
    assert!(new_content.contains("[@alice]: https://github.com/alice"));
    assert!(new_content.contains("[#1]: https://github.com/owner/repo/pull/1"));
}

#[test]
fn merge_exact_output_for_new_section_and_placeholder() {
    let content = "# Changelog\n\n## [Unreleased]\n\nIntro.\n\n### Added\n\n- A. ([#5][] by [@x][])\n\n## [1.0.0]\n";
    let sections = vec![
        ("Fixed".to_owned(), vec![(9_u64, "Fix two.".to_owned()), (7, "Fix one.".to_owned())]),
        ("Added".to_owned(), vec![(3, "Early.".to_owned())]),
    ];
    let placeholders = vec![(4_u64, "no-changelog: T ([#4][] by [@y][])".to_owned())];
    let out = merge_into_unreleased(content, &sections, &placeholders).ok().unwrap();
    assert_eq!(
        out,
        "# Changelog\n\n## [Unreleased]\n\nIntro.\n\n- no-changelog: T ([#4][] by [@y][])\n\n### Added\n\n- Early.\n- A. ([#5][] by [@x][])\n\n### Fixed\n\n- Fix one.\n- Fix two.\n\n## [1.0.0]\n"
    );
}

#[test]
fn merge_keeps_single_blank_line_between_existing_subsections() {
    let content = "## [Unreleased]\n\n### Added\n\n- a ([#1][])\n\n### Fixed\n\n- b ([#2][])\n";
    let sections = vec![("Added".to_owned(), vec![(3_u64, "c ([#3][])".to_owned())])];
    let out = merge_into_unreleased(content, &sections, &vec![]).ok().unwrap();
    assert!(out.contains("- a ([#1][])\n- c ([#3][])\n\n### Fixed"));
    assert!(!out.contains("\n\n\n"));
    let again = merge_into_unreleased(&out, &sections, &vec![]).ok().unwrap();
    assert!(!again.contains("\n\n\n"));
}

#[test]
fn merge_separates_subsections_that_had_no_blank_line() {
    let content = "## [Unreleased]\n### Added\n- a ([#1][])\n### Fixed\n- b ([#2][])\n";
    let sections = vec![("Fixed".to_owned(), vec![(3_u64, "c ([#3][])".to_owned())])];
    let out = merge_into_unreleased(content, &sections, &vec![]).ok().unwrap();
    assert_eq!(out, "## [Unreleased]\n### Added\n- a ([#1][])\n\n### Fixed\n- b ([#2][])\n- c ([#3][])\n\n");
}

#[test]
fn merge_nothing_to_add_is_identity_and_missing_heading_is_error() {
    let content = "no heading here";
    assert_eq!(merge_into_unreleased(content, &vec![], &vec![]).ok().unwrap(), content);
    assert_eq!(
        merge_into_unreleased(content, &vec![], &vec![(1, "x".to_owned())]).err().unwrap(),
        ChangelogError::NoUnreleasedHeading
    );
}
