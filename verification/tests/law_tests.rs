use git_changelog::coauthors::{parse_co_author_trailers, resolve_co_authors};
use git_changelog::config::Config;
use git_changelog::marker::set_marker;
use git_changelog::merge::{
    merge_into_unreleased, parse_subsections, render_subsections, BulletLine, ChangelogError,
};
use git_changelog::paths::{path_has_prefix, paths_equal};
use git_changelog::process::{attribution_logins, process, route, work_fits, Collected, PrData};
use git_changelog::refdefs::{insert_pr_def_line, update_reference_defs};

const CHANGELOG: &str = "\
# Changelog

## [Unreleased]

Some prose.

### Fixed

- Old fix. ([#10][] by [@bob][])

## [0.1.0] - 2026-01-01

- First release.

[#10]: https://github.com/o/r/pull/10
[@bob]: https://github.com/bob
";

fn is_subsequence(small: &[&str], big: &[&str]) -> bool {
    let mut it = big.iter();
    small.iter().all(|line| it.any(|b| b == line))
}

#[test]
fn merge_keeps_every_line_in_order_and_adds_each_entry() {
    let sections = vec![
        ("Fixed".to_string(), vec![(5u64, "Early fix.".to_string()), (20, "Late fix.".to_string())]),
        ("Added".to_string(), vec![(7u64, "New thing.".to_string())]),
    ];
    let placeholders = vec![(3u64, "no-changelog: Chore".to_string())];
    let merged = merge_into_unreleased(CHANGELOG, &sections, &placeholders).expect("merge");
    let old: Vec<&str> = CHANGELOG.lines().collect();
    let new: Vec<&str> = merged.lines().collect();
    assert!(is_subsequence(&old, &new));
    for line in ["- Early fix.", "- Late fix.", "- New thing.", "- no-changelog: Chore"] {
        assert!(new.contains(&line), "missing {line}");
    }
}

#[test]
fn reference_definitions_cover_every_request() {
    let updated = update_reference_defs(CHANGELOG, "o/r", &vec![10, 12], &vec!["bob".to_string(), "amy".to_string()])
        .expect("update");
    assert!(updated.contains("[#12]: https://github.com/o/r/pull/12"));
    assert!(updated.contains("[@amy]: https://github.com/amy"));
    assert_eq!(updated.matches("[#10]:").count(), 1);
    assert_eq!(updated.matches("[@bob]:").count(), 1);
    let old: Vec<&str> = CHANGELOG.lines().collect();
    let new: Vec<&str> = updated.lines().collect();
    assert!(is_subsequence(&old, &new));
}

#[test]
fn routing_goes_to_matches_or_default_alone() {
    let config = Config::new("o/r", "CHANGELOG.md")
        .changelog("a/CHANGELOG.md", &["a"])
        .changelog("b/CHANGELOG.md", &["b"])
        .changelog("a/CHANGELOG.md", &["a2"]);
    assert_eq!(route(&config, &vec!["c/x.rs".to_string()]), vec!["CHANGELOG.md".to_string()]);
    assert_eq!(route(&config, &vec![]), vec!["CHANGELOG.md".to_string()]);
    let both = route(&config, &vec!["b/x.rs".to_string(), "a2/y.rs".to_string(), "a/z.rs".to_string()]);
    assert_eq!(both, vec!["a/CHANGELOG.md".to_string(), "b/CHANGELOG.md".to_string()]);
}

#[test]
fn all_changelog_files_once_each() {
    let config = Config::new("o/r", "CHANGELOG.md")
        .changelog("b/CHANGELOG.md", &["b"])
        .changelog("./CHANGELOG.md", &["c"])
        .changelog("b//CHANGELOG.md", &["d"]);
    let files = config.all_changelog_files();
    assert_eq!(files.len(), 3);
    assert!(files.contains(&"CHANGELOG.md".to_string()));
    assert!(files.contains(&"./CHANGELOG.md".to_string()));
}

#[test]
fn attribution_names_author_first_once() {
    let pr = PrData {
        number: 1,
        title: "T".to_string(),
        body: None,
        author: "amy".to_string(),
        co_authors: vec!["bob".to_string(), "amy".to_string(), "bob".to_string(), "cat".to_string()],
        changed_paths: Vec::new(),
    };
    assert_eq!(
        attribution_logins(&pr),
        vec!["amy".to_string(), "bob".to_string(), "cat".to_string()]
    );
}

#[test]
fn every_trailer_resolved_or_reported() {
    let message = "Subject\n\nCo-authored-by: A <1+a@users.noreply.github.com>\nCo-authored-by: B <b@x.example>\nCo-authored-by: C <c@x.example>\n";
    let trailers = parse_co_author_trailers(message);
    let map = vec![("b@x.example".to_string(), "bee".to_string())];
    let (resolved, unresolved) = resolve_co_authors(&trailers, &map);
    assert_eq!(resolved.len() + unresolved.len(), trailers.len());
    assert_eq!(resolved, vec!["a".to_string(), "bee".to_string()]);
    assert_eq!(unresolved[0].email, "c@x.example");
}

#[test]
fn small_runs_fit_the_counters() {
    let config = Config::new("o/r", "CHANGELOG.md");
    let collected = Collected {
        head_sha: "abc".to_string(),
        prs: vec![PrData {
            number: 1,
            title: "T".to_string(),
            body: Some("**Changelog**\n\n> ### Added\n>\n> - A.\n> - B.\n".to_string()),
            author: "amy".to_string(),
            co_authors: Vec::new(),
            changed_paths: vec!["src/lib.rs".to_string()],
        }],
    };
    assert!(work_fits(&collected, &config));
}

#[test]
fn error_messages() {
    assert_eq!(
        ChangelogError::NoUnreleasedHeading.message(),
        "could not find a `## [Unreleased]` heading"
    );
    assert_eq!(
        ChangelogError::MissingContent("x/CHANGELOG.md".to_string()).message(),
        "no current content provided for changelog file x/CHANGELOG.md"
    );
    assert_eq!(
        ChangelogError::DroppedDefinition("[#1]: u".to_string()).message(),
        "refusing to drop existing reference definition `[#1]: u` while updating the changelog"
    );
}

#[test]
fn process_keeps_lines_and_delivers_every_entry() {
    let config = Config::new("o/r", "CHANGELOG.md").changelog("sub/CHANGELOG.md", &["sub"]);
    let body = "**Changelog**\n\n> ### Fixed\n>\n> - Fixed it.\n".to_string();
    let collected = Collected {
        head_sha: "abc".to_string(),
        prs: vec![
            PrData {
                number: 12,
                title: "Fix".to_string(),
                body: Some(body),
                author: "amy".to_string(),
                co_authors: Vec::new(),
                changed_paths: vec!["sub/src/lib.rs".to_string(), "src/main.rs".to_string()],
            },
            PrData {
                number: 13,
                title: "Chore".to_string(),
                body: None,
                author: "bob".to_string(),
                co_authors: Vec::new(),
                changed_paths: vec!["Cargo.lock".to_string()],
            },
        ],
    };
    let current = vec![
        ("CHANGELOG.md".to_string(), CHANGELOG.to_string()),
        ("sub/CHANGELOG.md".to_string(), "# Changelog\n\n## [Unreleased]\n".to_string()),
    ];
    let out = process(&collected, &config, &current).ok().expect("process");
    let sub = out.updated_content("sub/CHANGELOG.md").expect("sub changed");
    assert!(sub.lines().any(|l| l == "- Fixed it. ([#12][] by [@amy][])"));
    let root = out.updated_content("CHANGELOG.md").expect("root changed");
    assert!(root.lines().any(|l| l == "- no-changelog: Chore ([#13][] by [@bob][])"));
    assert!(!root.contains("Fixed it."));
    let old: Vec<&str> = CHANGELOG.lines().collect();
    let new: Vec<&str> = root.lines().collect();
    assert!(is_subsequence(&old, &new));
}

#[test]
fn setting_the_same_marker_twice_changes_nothing() {
    let contents = [
        "# Changelog\n\n## [Unreleased]\n",
        "# Changelog\n<!-- git-changelog:last-commit old -->\n\n## [Unreleased]",
        "no heading at all",
        "",
        "# Changelog\r\n\r\n## [Unreleased]\r\n",
        "# Changelog\n<!-- git-changelog:last-commit old -->\nlast line\r",
        "# Changelog\n<!-- git-changelog:last-commit old -->\r\r\n\n## [Unreleased]\n",
    ];
    for c in contents {
        let once = set_marker(c, "abc123");
        assert_eq!(set_marker(&once, "abc123"), once);
        assert_eq!(once.matches("git-changelog:last-commit").count(), 1);
    }
}

#[test]
fn parsed_subsections_give_back_their_lines() {
    let text = "intro\n### Added\n\n- a ([#1][])\n### Fixed\n- b ([#2][])\n\n";
    let lines: Vec<Vec<char>> = text.split('\n').map(|l| l.chars().collect()).collect();
    let subs = parse_subsections(&lines);
    assert_eq!(subs.len(), 2);
    let names: Vec<String> = subs.iter().map(|s| s.name.iter().collect()).collect();
    assert_eq!(names, vec!["Added".to_string(), "Fixed".to_string()]);
    let mut concatenated: Vec<String> = Vec::new();
    for s in &subs {
        concatenated.push(s.heading.iter().collect());
        for b in &s.body_lines {
            let t = match b {
                BulletLine::Prose(t) => t,
                BulletLine::Bullet { text, .. } => text,
            };
            concatenated.push(t.iter().collect());
        }
    }
    let expected: Vec<String> = text.split('\n').skip(1).map(|l| l.to_string()).collect();
    assert_eq!(concatenated, expected);
    // Rendering separates the two only where the first did not end with a blank line.
    let rendered: Vec<String> = render_subsections(&subs).iter().map(|l| l.iter().collect()).collect();
    let mut with_gap = expected.clone();
    with_gap.insert(3, String::new());
    assert_eq!(rendered, with_gap);
}

#[test]
fn pr_definition_goes_between_smaller_and_larger() {
    let to_lines = |t: &str| -> Vec<Vec<char>> { t.split('\n').map(|l| l.chars().collect()).collect() };
    let to_text = |ls: &Vec<Vec<char>>| -> String {
        ls.iter().map(|l| l.iter().collect::<String>()).collect::<Vec<_>>().join("\n")
    };
    let mut ls = to_lines("text\n\n[#2]: u2\n[#9]: u9\n[@a]: ua");
    insert_pr_def_line(&mut ls, 5, "[#5]: u5".chars().collect());
    assert_eq!(to_text(&ls), "text\n\n[#2]: u2\n[#5]: u5\n[#9]: u9\n[@a]: ua");
    let mut ls = to_lines("text\n\n[#2]: u2\n[@a]: ua");
    insert_pr_def_line(&mut ls, 7, "[#7]: u7".chars().collect());
    assert_eq!(to_text(&ls), "text\n\n[#2]: u2\n[#7]: u7\n[@a]: ua");
    let mut ls = to_lines("text\n[@a]: ua");
    insert_pr_def_line(&mut ls, 7, "[#7]: u7".chars().collect());
    assert_eq!(to_text(&ls), "text\n[@a]: ua\n\n[#7]: u7");
}

#[test]
fn relative_paths_compare_by_their_pieces() {
    assert!(paths_equal("a//b/", "a/b"));
    assert!(paths_equal("a/./b", "a/b"));
    assert!(!paths_equal("./a", "a"));
    assert!(!paths_equal("crates/x/Cargo.toml", "Cargo.toml"));
    assert!(path_has_prefix("crates/x/src/lib.rs", "crates/x"));
    assert!(!path_has_prefix("crates/xy/src/lib.rs", "crates/x"));
}

fn unreleased_bullet_numbers_ascend(text: &str) -> bool {
    let mut inside = false;
    let mut last: Option<u64> = None;
    for line in text.lines() {
        if line.trim() == "## [Unreleased]" {
            inside = true;
            continue;
        }
        if !inside {
            continue;
        }
        if line.starts_with("## ") || line.trim_start().starts_with('[') {
            break;
        }
        if line.trim_start().starts_with("### ") {
            last = None;
            continue;
        }
        if let Some(rest) = line.trim_start().strip_prefix("- ") {
            if let Some(idx) = rest.find("([#") {
                let tail = &rest[idx + 3..];
                if let Some(end) = tail.find(']') {
                    if let Ok(n) = tail[..end].parse::<u64>() {
                        if last.is_some_and(|l| l > n) {
                            return false;
                        }
                        last = Some(n);
                    }
                }
            }
        }
    }
    true
}

#[test]
fn merge_keeps_bullets_in_ascending_order_within_each_part() {
    let content = "## [Unreleased]\n\n- p ([#4][])\n- q ([#8][])\n\n### Added\n\n- a ([#2][])\n- b ([#9][])\n\n### Fixed\n\n- f ([#1][])\n\n[#1]: u\n";
    assert!(unreleased_bullet_numbers_ascend(content));
    let sections = vec![
        ("Fixed".to_string(), vec![(7u64, "g ([#7][])".to_string()), (3, "e ([#3][])".to_string())]),
        ("Added".to_string(), vec![(5u64, "c ([#5][])".to_string())]),
        ("Removed".to_string(), vec![(6u64, "r ([#6][])".to_string())]),
    ];
    let placeholders = vec![(6u64, "no-changelog: x ([#6][])".to_string())];
    let out = merge_into_unreleased(content, &sections, &placeholders).expect("merge");
    assert!(unreleased_bullet_numbers_ascend(&out));
    assert!(out.contains("- p ([#4][])\n- no-changelog: x ([#6][])\n- q ([#8][])"));
    assert!(out.contains("- a ([#2][])\n- c ([#5][])\n- b ([#9][])"));
    assert!(out.contains("- f ([#1][])\n- e ([#3][])\n- g ([#7][])"));
}

#[test]
fn updating_definitions_adds_no_second_definition() {
    let prs = vec![10u64, 11];
    let authors = vec!["bob".to_string(), "carol".to_string()];
    let out = update_reference_defs(CHANGELOG, "o/r", &prs, &authors).expect("update");
    for label in ["[#10]:", "[#11]:", "[@bob]:", "[@carol]:"] {
        assert_eq!(out.lines().filter(|l| l.trim_start().starts_with(label)).count(), 1, "{label}");
    }
    let again = update_reference_defs(&out, "o/r", &prs, &authors).expect("update");
    assert_eq!(again, out);
}

#[test]
fn texts_without_final_newline_keep_their_lines() {
    let content = CHANGELOG.trim_end_matches('\n');
    let sections = vec![("Fixed".to_string(), vec![(12u64, "Newer fix. ([#12][])".to_string())])];
    let merged = merge_into_unreleased(content, &sections, &vec![]).expect("merge");
    let old: Vec<&str> = content.lines().collect();
    let new: Vec<&str> = merged.lines().collect();
    assert!(is_subsequence(&old, &new));
    assert!(new.contains(&"- Newer fix. ([#12][])"));
    assert!(!merged.ends_with('\n'));
    let updated = update_reference_defs(content, "o/r", &vec![12], &vec!["amy".to_string()]).expect("update");
    let upd: Vec<&str> = updated.lines().collect();
    assert!(is_subsequence(&old, &upd));
    assert!(upd.contains(&"[#12]: https://github.com/o/r/pull/12"));
    assert!(upd.contains(&"[@amy]: https://github.com/amy"));
}

#[test]
fn a_bracketed_label_without_colon_is_no_definition() {
    let content = "# Changelog\n\n## [Unreleased]\n\n- x\n\n[#7] was reverted.\n[@amy] said so.\n";
    let out = update_reference_defs(content, "o/r", &vec![7], &vec!["amy".to_string()]).expect("update");
    assert!(out.contains("[#7] was reverted.\n"));
    assert!(out.lines().any(|l| l == "[#7]: https://github.com/o/r/pull/7"));
    assert!(out.lines().any(|l| l == "[@amy]: https://github.com/amy"));
}

#[test]
fn a_label_requested_twice_is_defined_once() {
    let prs = vec![5u64, 5, 3, 5];
    let authors = vec!["amy".to_string(), "amy".to_string()];
    let out = update_reference_defs(CHANGELOG, "o/r", &prs, &authors).expect("update");
    assert_eq!(out.lines().filter(|l| l.starts_with("[#5]:")).count(), 1);
    assert_eq!(out.lines().filter(|l| l.starts_with("[#3]:")).count(), 1);
    assert_eq!(out.lines().filter(|l| l.starts_with("[@amy]:")).count(), 1);
}

#[test]
fn merge_keeps_order_in_texts_with_carriage_returns_or_no_final_newline() {
    let content = "## [Unreleased]\r\n\r\n- p ([#4][])\r\r\n### Added\r\n- a ([#2][])\r\n- b ([#9][])";
    let sections = vec![("Added".to_string(), vec![(5u64, "c ([#5][])".to_string())])];
    let placeholders = vec![(6u64, "no-changelog: x ([#6][])".to_string())];
    let out = merge_into_unreleased(content, &sections, &placeholders).expect("merge");
    assert!(unreleased_bullet_numbers_ascend(&out));
    assert!(out.contains("- c ([#5][])"));
    assert!(out.contains("- no-changelog: x ([#6][])"));
}
