use git_changelog::config::Config;
use git_changelog::process::{process, route, Collected, PrData};
use std::collections::BTreeSet;

fn changelog_fixture() -> String {
    "\
# Changelog

## [Unreleased]

This release has an [MSRV][] of 1.88.

### Added

- Existing entry one. ([#100][] by [@alice][])
- Existing entry two. ([#200][] by [@bob][])

## [0.1.0][] - 2026-01-01

Initial release.

[MSRV]: README.md#minimum-supported-rust-version-msrv

[Unreleased]: https://example.com/compare/v0.1.0...HEAD
[0.1.0]: https://example.com/compare/v0.0.0...v0.1.0

[@alice]: https://github.com/alice
[@bob]: https://github.com/bob

[#100]: https://example.com/pull/100
[#200]: https://example.com/pull/200
"
    .to_owned()
}

fn vello_config() -> Config {
    Config::new("linebender/vello", "CHANGELOG.md")
        .changelog("sparse_strips/vello_cpu/CHANGELOG.md", &["sparse_strips/vello_cpu"])
        .changelog(
            "sparse_strips/vello_common/CHANGELOG.md",
            &["sparse_strips/vello_common", "sparse_strips/vello_common/crate"],
        )
}

fn pr(number: u64, author: &str, changed_paths: &[&str]) -> PrData {
    PrData {
        number,
        title: format!("Title for #{number}"),
        body: None,
        author: author.to_owned(),
        co_authors: Vec::new(),
        changed_paths: changed_paths.iter().map(|p| (*p).to_owned()).collect(),
    }
}

fn route_set(cfg: &Config, paths: &[&str]) -> BTreeSet<String> {
    let paths: Vec<String> = paths.iter().map(|p| (*p).to_owned()).collect();
    route(cfg, &paths).into_iter().collect()
}

fn single(content: String) -> Vec<(String, String)> {
    vec![("CHANGELOG.md".to_owned(), content)]
}

// --- Routing -----------------------------------------------------------------------------

#[test]
fn routing_multi_root_pr_routes_to_multiple_files() {
    let cfg = vello_config();
    let targets = route_set(
        &cfg,
        &["sparse_strips/vello_cpu/src/lib.rs", "sparse_strips/vello_common/src/lib.rs"],
    );
    assert_eq!(
        targets,
        BTreeSet::from([
            "sparse_strips/vello_cpu/CHANGELOG.md".to_owned(),
            "sparse_strips/vello_common/CHANGELOG.md".to_owned(),
        ])
    );
}

#[test]
fn routing_ignored_root_only_falls_back_to_default() {
    let cfg = vello_config();
    let targets = route_set(&cfg, &["Cargo.lock"]);
    assert_eq!(targets, BTreeSet::from(["CHANGELOG.md".to_owned()]));
}

#[test]
fn routing_nested_cargo_toml_is_not_ignored() {
    let cfg = vello_config();
    // A nested Cargo.toml is NOT matched by the exact "Cargo.toml" ignore entry, so it
    // routes normally to its crate's changelog.
    let targets = route_set(&cfg, &["sparse_strips/vello_cpu/Cargo.toml"]);
    assert_eq!(targets, BTreeSet::from(["sparse_strips/vello_cpu/CHANGELOG.md".to_owned()]));
}

#[test]
fn routing_matches_whole_components_only() {
    let cfg = vello_config();
    let targets = route_set(&cfg, &["sparse_strips/vello_cpu2/src/lib.rs"]);
    assert_eq!(targets, BTreeSet::from(["CHANGELOG.md".to_owned()]));
    // Paths compare by components: a doubled separator still matches.
    let targets = route_set(&cfg, &["sparse_strips//vello_cpu/src/lib.rs", "./Cargo.lock"]);
    assert_eq!(targets, BTreeSet::from(["sparse_strips/vello_cpu/CHANGELOG.md".to_owned()]));
}

#[test]
fn routing_result_is_sorted_by_path() {
    let cfg = vello_config();
    let paths: Vec<String> = vec![
        "sparse_strips/vello_cpu/src/lib.rs".to_owned(),
        "sparse_strips/vello_common/src/lib.rs".to_owned(),
    ];
    assert_eq!(
        route(&cfg, &paths),
        vec![
            "sparse_strips/vello_common/CHANGELOG.md".to_owned(),
            "sparse_strips/vello_cpu/CHANGELOG.md".to_owned(),
        ]
    );
}

// --- process() end-to-end summary -----------------------------------------------------------

#[test]
fn process_reports_none_skips_and_placeholder_counts() {
    let cfg = Config::new("owner/repo", "CHANGELOG.md");
    let current = single(changelog_fixture());

    let collected = Collected {
        head_sha: "deadbeef".to_owned(),
        prs: vec![pr(400, "alice", &["src/lib.rs"]), {
            let mut p = pr(401, "bob", &["src/lib.rs"]);
            p.body = Some("Changelog: None".to_owned());
            p
        }],
    };

    let output = process(&collected, &cfg, &current).ok().expect("process should succeed");
    assert_eq!(output.summary.none_skipped, 1);
    assert_eq!(output.summary.placeholders, 1);
    assert_eq!(output.summary.entries_added, vec![("CHANGELOG.md".to_owned(), 1)]);
}

#[test]
fn process_missing_content_is_an_error() {
    let cfg = Config::new("owner/repo", "CHANGELOG.md");
    let collected = Collected { head_sha: "x".to_owned(), prs: vec![pr(1, "a", &["src/lib.rs"])] };
    let err = process(&collected, &cfg, &vec![]).err().expect("must fail");
    assert_eq!(err, git_changelog::merge::ChangelogError::MissingContent("CHANGELOG.md".to_owned()));
}

#[test]
fn process_without_unreleased_heading_is_an_error() {
    let cfg = Config::new("owner/repo", "CHANGELOG.md");
    let collected = Collected { head_sha: "x".to_owned(), prs: vec![pr(1, "a", &["src/lib.rs"])] };
    let err = process(&collected, &cfg, &single("# Changelog\n".to_owned())).err().expect("must fail");
    assert_eq!(err, git_changelog::merge::ChangelogError::NoUnreleasedHeading);
}

#[test]
fn process_with_no_prs_changes_nothing() {
    let cfg = Config::new("owner/repo", "CHANGELOG.md");
    let collected = Collected { head_sha: "x".to_owned(), prs: vec![] };
    let output = process(&collected, &cfg, &single(changelog_fixture())).ok().unwrap();
    assert!(output.updated.is_empty());
    assert_eq!(output.summary.placeholders, 0);
}
