# git_changelog

First-draft changelog generation for keep-a-changelog style `CHANGELOG.md` files, and
extraction of one release's notes, verified with Verus.

A run reads the `**Changelog**` blockquote of every pull request squash-merged since the
`git-changelog:last-commit` marker, routes its entries to the changelogs of the crates it
touched, merges them into each `## [Unreleased]` section in pull-request order, adds the
reference definitions they need, and advances the marker.

## Layout

- `src/` — the verified library. Every function has a contract over spec functions, and the
  laws of the library are proof functions beside the code they speak of:
  - `text`, `numbers`, `subseq`, `paths` — characters, lines, decimal numbers, subsequences,
    and `std::path::Path`-style path comparison;
  - `extract` — reading the `**Changelog**` blockquote of a pull-request body;
  - `merge` — merging entries into `## [Unreleased]`: only whole lines are inserted, and a
    blank line only between subsections that have none; every entry gets a bullet; and, for
    entries whose text names their own pull request and holds no line break, numbered bullets
    that were in ascending order in each part of the section stay so, as the merged text reads
    back;
  - `refdefs` — adding the `[#N]` and `[@login]` reference definitions: every requested
    number and login (one without `]`) then has a definition line `[label]: …`; existing lines
    are kept; no label gets a second definition line; the definition groups stay sorted; a
    second update with the same requests changes nothing;
  - `marker` — reading and setting the `git-changelog:last-commit` marker: what is set is
    read back; setting the same commit again changes nothing, for a commit without a line
    break, on a text whose lines split alike once the marker is set (no line keeps a final
    `\r` once split, but the marker line and the unterminated last line of a text with a
    marker);
  - `config`, `process` — configuration, routing, attribution and the processing stage;
  - `coauthors` — resolving `Co-authored-by:` trailers to GitHub logins;
  - `collect`, `apply` — the decisions of the collection and apply stages;
  - `release` — the notes of one version of a changelog, from `pulldown_cmark`'s events.
- `tests/` — tests run against the compiled library.
- `app/` — the command-line tool: runs `git` and `gh`, reads and writes files, and parses
  the GitHub API's JSON, handing plain values to the library.
