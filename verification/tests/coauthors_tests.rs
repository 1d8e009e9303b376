use git_changelog::coauthors::{
    build_email_login_map, login_from_noreply, needs_commit_lookup, parse_co_author_trailers,
    resolve_co_authors, unresolved_co_author_warning, PrCommit,
};

fn chars(s: &str) -> Vec<char> {
    s.chars().collect()
}

fn lookup<'a>(map: &'a [(String, String)], key: &str) -> Option<&'a String> {
    map.iter().find(|(k, _)| k == key).map(|(_, v)| v)
}

#[test]
fn co_author_trailers_parsed_and_resolved() {
    let message = "Do a thing (#42)\n\nBody.\n\n\
         Co-authored-by: Nores Ply <12345+noreply_user@users.noreply.github.com>\n\
         Co-authored-by: Jane Doe <Jane@Corp.Example>\n\
         Co-authored-by: Ghost <ghost@nowhere.example>\n";
    let trailers = parse_co_author_trailers(message);
    assert_eq!(trailers.len(), 3);
    assert_eq!(trailers[1].name, "Jane Doe");
    assert_eq!(trailers[1].email, "Jane@Corp.Example");

    // noreply resolves with no map; Jane resolves via the commit map (case-insensitive email);
    // Ghost cannot be resolved and is surfaced rather than dropped.
    let map = vec![("jane@corp.example".to_owned(), "janedoe".to_owned())];
    let (resolved, unresolved) = resolve_co_authors(&trailers, &map);
    assert_eq!(resolved, vec!["noreply_user".to_owned(), "janedoe".to_owned()]);
    assert_eq!(unresolved.len(), 1);
    assert_eq!(unresolved[0].email, "ghost@nowhere.example");
}

/// Reads a commit of `GET /pulls/{n}/commits` into the fields the map is built from.
fn commit_from_json(v: &serde_json::Value) -> PrCommit {
    let login = |account: &serde_json::Value| account.get("login").and_then(|l| l.as_str()).map(str::to_owned);
    let email = |identity: Option<&serde_json::Value>| {
        identity.and_then(|i| i.get("email")).and_then(|e| e.as_str()).map(str::to_owned)
    };
    let commit = v.get("commit").expect("commit");
    PrCommit {
        author_login: v.get("author").and_then(login),
        committer_login: v.get("committer").and_then(login),
        author_email: email(commit.get("author")),
        committer_email: email(commit.get("committer")),
    }
}

#[test]
fn commit_login_map_built_from_pr_commits_json() {
    // Mirrors the shape of `GET /pulls/{n}/commits`: an unmatched author (`author: null`)
    // falls back to the committer login, and emails are lowercased.
    let json = r#"[
      {"commit":{"author":{"email":"Jane@Corp.Example"},"committer":{"email":"web@flow.example"}},
       "author":{"login":"janedoe"},"committer":{"login":"web-flow"}},
      {"commit":{"author":{"email":"x@y.example"},"committer":{"email":"x@y.example"}},
       "author":null,"committer":{"login":"fallbacklogin"}}
    ]"#;
    let value: serde_json::Value = serde_json::from_str(json).expect("valid json");
    let commits: Vec<PrCommit> = value.as_array().expect("array").iter().map(commit_from_json).collect();
    let map = build_email_login_map(&commits);
    assert_eq!(lookup(&map, "jane@corp.example"), Some(&"janedoe".to_owned()));
    assert_eq!(lookup(&map, "x@y.example"), Some(&"fallbacklogin".to_owned()));
}

#[test]
fn author_mapping_wins_over_committer_and_later_author_wins() {
    let commits = vec![
        PrCommit {
            author_login: Some("first".to_owned()),
            committer_login: Some("committer".to_owned()),
            author_email: Some("A@X".to_owned()),
            committer_email: Some("a@x".to_owned()),
        },
        PrCommit {
            author_login: Some("second".to_owned()),
            committer_login: None,
            author_email: Some("a@X".to_owned()),
            committer_email: None,
        },
    ];
    let map = build_email_login_map(&commits);
    assert_eq!(map, vec![("a@x".to_owned(), "second".to_owned())]);
}

#[test]
fn noreply_logins() {
    assert_eq!(login_from_noreply(&chars("12345+user@users.noreply.github.com")), Some(chars("user")));
    assert_eq!(login_from_noreply(&chars("user@USERS.NOREPLY.GITHUB.COM")), Some(chars("user")));
    assert_eq!(login_from_noreply(&chars("1+2+user@users.noreply.github.com")), Some(chars("user")));
    assert_eq!(login_from_noreply(&chars("12345+@users.noreply.github.com")), None);
    assert_eq!(login_from_noreply(&chars("user@example.com")), None);
    assert_eq!(login_from_noreply(&chars("no-at-sign")), None);
}

#[test]
fn trailers_need_identity_and_lookup_only_when_not_noreply() {
    let trailers = parse_co_author_trailers(
        "x\nco-authored-by: A <1+a@users.noreply.github.com>\nCo-authored-by: Broken\nCo-authored-by: Empty <>\n  Co-authored-by: Indented <i@x>\n",
    );
    assert_eq!(trailers.len(), 1);
    assert_eq!(trailers[0].name, "A");
    assert!(!needs_commit_lookup(&trailers));
    let more = parse_co_author_trailers("Co-authored-by: B <b@example.com>");
    assert!(needs_commit_lookup(&more));
}

#[test]
fn unresolved_trailer_warning_text() {
    let trailers = parse_co_author_trailers("x\n\nCo-authored-by: Ghost <ghost@nowhere.example>\n");
    assert_eq!(
        unresolved_co_author_warning(42, &trailers[0]),
        "warning: PR #42: could not resolve co-author `Ghost <ghost@nowhere.example>` to a GitHub login; add attribution manually"
    );
}
