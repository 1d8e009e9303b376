//! The pure processing stage: extracts each pull request's entries, routes them to changelog
//! files, and merges them into the current contents of those files. No I/O at all.

use crate::coauthors;
use crate::config::{self, Config, ConfigModel, TargetModel};
use crate::extract::{self, extract_changelog, ChangelogSection, Extraction, SectionModel};
use crate::merge::{self, merge_into_unreleased, ChangelogError, EntryModel, ErrorModel};
use crate::numbers;
use crate::paths::{self, paths_equal, path_has_prefix};
use crate::refdefs::{self, update_reference_defs};
use crate::subseq;
use crate::text::{self, append_chars, chars_eq, chars_of, lex_less, string_of};
use vstd::prelude::*;

verus! {

/// Data gathered about a single merged pull request.
pub struct PrData {
    /// The pull request number.
    pub number: u64,
    /// The pull request title.
    pub title: String,
    /// The pull request body (description), if any.
    pub body: Option<String>,
    /// The GitHub login of the pull request author.
    pub author: String,
    /// GitHub logins parsed from `Co-authored-by:` trailers on the squash-merge commit.
    pub co_authors: Vec<String>,
    /// Repo-root-relative paths changed by the pull request's squash-merge commit.
    pub changed_paths: Vec<String>,
}

/// Everything gathered from `git` and `gh` for a single run.
pub struct Collected {
    /// The commit at `HEAD`, to which the marker will be advanced.
    pub head_sha: String,
    /// Data for every merged pull request found in the collected range, in merge order.
    pub prs: Vec<PrData>,
}

/// Per-run statistics.
pub struct Summary {
    /// Number of entries added, per changelog file (sorted by path).
    pub entries_added: Vec<(String, usize)>,
    /// Number of `no-changelog: <title>` placeholder entries added across all files.
    pub placeholders: usize,
    /// Number of pull requests skipped because they opted out with `Changelog: None`.
    pub none_skipped: usize,
}

/// The result of the processing stage.
pub struct ProcessOutput {
    /// New file contents, keyed by repo-root-relative path (sorted by path). Only files that
    /// entries route to are present.
    pub updated: Vec<(String, String)>,
    /// Run statistics for the end-of-run summary.
    pub summary: Summary,
}

impl ProcessOutput {
    /// The new content of `file`, if it was updated.
    pub fn updated_content(&self, file: &str) -> (r: Option<&String>)
        ensures
            match r {
                Some(c) => lookup(pair_views(self.updated@), file@) == Some(c@),
                None => lookup(pair_views(self.updated@), file@) is None,
            },
    {
        lookup_content(&self.updated, file)
    }
}

/// The model of a [`PrData`].
pub struct PrModel {
    pub number: u64,
    pub title: Seq<char>,
    pub body: Option<Seq<char>>,
    pub author: Seq<char>,
    pub co_authors: Seq<Seq<char>>,
    pub changed_paths: Seq<Seq<char>>,
}

impl View for PrData {
    type V = PrModel;

    open spec fn view(&self) -> PrModel {
        PrModel {
            number: self.number,
            title: self.title@,
            body: coauthors::opt_view(self.body),
            author: self.author@,
            co_authors: text::string_views(self.co_authors@),
            changed_paths: text::string_views(self.changed_paths@),
        }
    }
}

/// The models of a sequence of pull requests.
pub open spec fn pr_views(v: Seq<PrData>) -> Seq<PrModel> {
    v.map_values(|p: PrData| p@)
}

// ---------------------------------------------------------------------------------------------
// Specification: routing.
// ---------------------------------------------------------------------------------------------

/// Whether `p` is one of the ignored paths.
pub open spec fn is_ignored(ignores: Seq<Seq<char>>, p: Seq<char>) -> bool {
    exists|k: int| 0 <= k < ignores.len() && paths::path_eq(#[trigger] ignores[k], p)
}

/// The paths that are not ignored, in order.
pub open spec fn non_ignored(ignores: Seq<Seq<char>>, ps: Seq<Seq<char>>) -> Seq<Seq<char>>
    decreases ps.len(),
{
    if ps.len() == 0 {
        seq![]
    } else {
        non_ignored(ignores, ps.drop_last()) + if is_ignored(ignores, ps.last()) {
            Seq::<Seq<char>>::empty()
        } else {
            seq![ps.last()]
        }
    }
}

/// Whether one of `paths` lies under one of `roots`.
pub open spec fn root_matches(roots: Seq<Seq<char>>, paths: Seq<Seq<char>>) -> bool {
    exists|r: int, p: int|
        0 <= r < roots.len() && 0 <= p < paths.len() && paths::path_starts_with(
            #[trigger] paths[p],
            #[trigger] roots[r],
        )
}

/// The files of the targets whose roots match, collected into a sorted path set.
pub open spec fn matched_files(ts: Seq<TargetModel>, paths: Seq<Seq<char>>) -> Seq<Seq<char>>
    decreases ts.len(),
{
    if ts.len() == 0 {
        seq![]
    } else {
        let m = matched_files(ts.drop_last(), paths);
        if root_matches(ts.last().roots, paths) {
            paths::insert_path_last(m, ts.last().file)
        } else {
            m
        }
    }
}

/// The changelog files a pull request's changed paths route to: every registered changelog
/// one of whose roots holds a non-ignored changed path, or else the default changelog.
pub open spec fn route_files(cfg: ConfigModel, changed: Seq<Seq<char>>) -> Seq<Seq<char>> {
    let m = matched_files(cfg.changelogs, non_ignored(cfg.ignore_paths, changed));
    if m.len() == 0 {
        seq![cfg.default_changelog]
    } else {
        m
    }
}

// ---------------------------------------------------------------------------------------------
// Specification: attribution.
// ---------------------------------------------------------------------------------------------

/// `s` without repeated elements, keeping first occurrences in order.
pub open spec fn dedup(s: Seq<Seq<char>>) -> Seq<Seq<char>>
    decreases s.len(),
{
    if s.len() == 0 {
        s
    } else {
        let d = dedup(s.drop_last());
        if d.contains(s.last()) {
            d
        } else {
            d.push(s.last())
        }
    }
}

/// The attributed logins of a pull request: the author, then the co-authors, without repeats.
pub open spec fn logins_of(pr: PrModel) -> Seq<Seq<char>> {
    dedup(seq![pr.author] + pr.co_authors)
}

/// `[@login][]`.
pub open spec fn mention(l: Seq<char>) -> Seq<char> {
    "[@"@ + l + "][]"@
}

/// Mentions separated by `, `.
pub open spec fn mention_list(ls: Seq<Seq<char>>) -> Seq<char>
    decreases ls.len(),
{
    if ls.len() == 0 {
        seq![]
    } else if ls.len() == 1 {
        mention(ls[0])
    } else {
        mention(ls[0]) + ", "@ + mention_list(ls.drop_first())
    }
}

/// `[@a][]`, `[@a][] and [@b][]`, or `[@a][], [@b][], and [@c][]`.
pub open spec fn attribution(ls: Seq<Seq<char>>) -> Seq<char> {
    if ls.len() == 0 {
        seq![]
    } else if ls.len() == 1 {
        mention(ls[0])
    } else if ls.len() == 2 {
        mention(ls[0]) + " and "@ + mention(ls[1])
    } else {
        mention_list(ls.drop_last()) + ", and "@ + mention(ls.last())
    }
}

/// `x` occurs in `a + b` where it occurs in `a`, and shifted where it occurs in `b`.
proof fn lemma_matches_at_concat(a: Seq<char>, b: Seq<char>, x: Seq<char>, i: int)
    ensures
        text::matches_at(a, x, i) ==> text::matches_at(a + b, x, i),
        text::matches_at(b, x, i) ==> text::matches_at(a + b, x, i + a.len()),
{
    if text::matches_at(a, x, i) {
        assert((a + b).subrange(i, i + x.len()) =~= a.subrange(i, i + x.len()));
    }
    if text::matches_at(b, x, i) {
        assert((a + b).subrange(i + a.len(), i + a.len() + x.len()) =~= b.subrange(i, i + x.len()));
    }
}

/// Where the mentions of `ls` start in [`mention_list`]: one position per login, increasing.
proof fn lemma_mention_list_positions(ls: Seq<Seq<char>>) -> (ps: Seq<int>)
    requires
        ls.len() > 0,
    ensures
        ps.len() == ls.len(),
        forall|i: int| 0 <= i < ls.len() ==> text::matches_at(mention_list(ls), "[@"@ + ls[i] + "][]"@, #[trigger] ps[i]),
        forall|i: int, j: int| 0 <= i < j < ls.len() ==> ps[i] < ps[j],
    decreases ls.len(),
{
    let m0 = mention(ls[0]);
    assert(text::matches_at(m0, "[@"@ + ls[0] + "][]"@, 0)) by {
        assert(m0.subrange(0, m0.len() as int) =~= m0);
    }
    if ls.len() == 1 {
        seq![0int]
    } else {
        let rest = ls.drop_first();
        let pr = lemma_mention_list_positions(rest);
        let head = m0 + ", "@;
        let ml = mention_list(ls);
        assert(ml == head + mention_list(rest));
        let ps = seq![0int] + pr.map_values(|p: int| p + head.len());
        lemma_matches_at_concat(m0, ", "@ + mention_list(rest), "[@"@ + ls[0] + "][]"@, 0);
        assert(m0 + (", "@ + mention_list(rest)) =~= ml);
        assert forall|i: int| 0 <= i < ls.len() implies text::matches_at(ml, "[@"@ + ls[i] + "][]"@, #[trigger] ps[i]) by {
            if i > 0 {
                assert(rest[i - 1] == ls[i]);
                assert(ps[i] == pr[i - 1] + head.len());
                lemma_matches_at_concat(head, mention_list(rest), "[@"@ + ls[i] + "][]"@, pr[i - 1]);
            }
        }
        reveal_strlit(", ");
        assert(head.len() >= 2);
        assert(ps[0] == 0);
        assert forall|i: int, j: int| 0 <= i < j < ls.len() implies ps[i] < ps[j] by {
            assert(ps[j] == pr[j - 1] + head.len());
            assert(text::matches_at(mention_list(rest), "[@"@ + rest[j - 1] + "][]"@, pr[j - 1]));
            if i > 0 {
                assert(ps[i] == pr[i - 1] + head.len());
                assert(pr[i - 1] < pr[j - 1]);
            }
        }
        ps
    }
}

/// Where the mentions of `ls` start in [`attribution`]: one position per login, increasing.
proof fn lemma_attribution_positions(ls: Seq<Seq<char>>) -> (ps: Seq<int>)
    ensures
        ls.len() == 1 ==> attribution(ls) == "[@"@ + ls[0] + "][]"@,
        ls.len() == 2 ==> attribution(ls) == "[@"@ + ls[0] + "][] and [@"@ + ls[1] + "][]"@,
        ps.len() == ls.len(),
        forall|i: int|
            0 <= i < ls.len() ==> text::matches_at(attribution(ls), "[@"@ + ls[i] + "][]"@, #[trigger] ps[i]),
        forall|i: int, j: int| 0 <= i < j < ls.len() ==> ps[i] < ps[j],
{
    reveal_strlit("[@");
    reveal_strlit("][]");
    reveal_strlit(" and ");
    reveal_strlit("][] and [@");
    let a = attribution(ls);
    if ls.len() == 0 {
        let ps: Seq<int> = seq![];
        ps
    } else if ls.len() == 1 {
        let ps: Seq<int> = seq![0int];
        assert(a.subrange(0, a.len() as int) =~= a);
        assert(text::matches_at(a, "[@"@ + ls[0] + "][]"@, ps[0]));
        ps
    } else if ls.len() == 2 {
        let m0 = mention(ls[0]);
        let m1 = mention(ls[1]);
        assert(a =~= "[@"@ + ls[0] + "][] and [@"@ + ls[1] + "][]"@);
        assert(text::matches_at(m0, "[@"@ + ls[0] + "][]"@, 0)) by {
            assert(m0.subrange(0, m0.len() as int) =~= m0);
        }
        assert(text::matches_at(m1, "[@"@ + ls[1] + "][]"@, 0)) by {
            assert(m1.subrange(0, m1.len() as int) =~= m1);
        }
        lemma_matches_at_concat(m0, " and "@ + m1, "[@"@ + ls[0] + "][]"@, 0);
        lemma_matches_at_concat(m0 + " and "@, m1, "[@"@ + ls[1] + "][]"@, 0);
        assert(m0 + (" and "@ + m1) =~= a);
        assert(m0 + " and "@ + m1 =~= a);
        let ps: Seq<int> = seq![0int, (m0.len() + 5) as int];
        assert(text::matches_at(a, "[@"@ + ls[0] + "][]"@, ps[0]));
        assert(text::matches_at(a, "[@"@ + ls[1] + "][]"@, ps[1]));
        ps
    } else {
        let d = ls.drop_last();
        let pd = lemma_mention_list_positions(d);
        let ml = mention_list(d);
        let ml_and = ml + ", and "@;
        let mlast = mention(ls.last());
        assert(a == ml_and + mlast);
        assert(text::matches_at(mlast, "[@"@ + ls.last() + "][]"@, 0)) by {
            assert(mlast.subrange(0, mlast.len() as int) =~= mlast);
        }
        lemma_matches_at_concat(ml_and, mlast, "[@"@ + ls.last() + "][]"@, 0);
        let ps = pd.push(ml_and.len() as int);
        assert forall|i: int| 0 <= i < ls.len() implies text::matches_at(a, "[@"@ + ls[i] + "][]"@, #[trigger] ps[i]) by {
            if i < ls.len() - 1 {
                assert(d[i] == ls[i]);
                assert(ps[i] == pd[i]);
                lemma_matches_at_concat(ml, ", and "@, "[@"@ + ls[i] + "][]"@, pd[i]);
                lemma_matches_at_concat(ml_and, mlast, "[@"@ + ls[i] + "][]"@, pd[i]);
            }
        }
        assert forall|i: int, j: int| 0 <= i < j < ls.len() implies ps[i] < ps[j] by {
            if j == ls.len() - 1 {
                assert(text::matches_at(ml, "[@"@ + d[i] + "][]"@, pd[i]));
            } else {
                assert(pd[i] < pd[j]);
            }
        }
        ps
    }
}

/// An attribution names every login it is given as a `[@login][]` mention, in the order given:
/// `[@a][]` for one login, exactly `[@a][] and [@b][]` for two, and for more each mention at a
/// position after the one before it.
pub proof fn lemma_attribution_mentions_all(ls: Seq<Seq<char>>)
    ensures
        ls.len() == 1 ==> attribution(ls) == "[@"@ + ls[0] + "][]"@,
        ls.len() == 2 ==> attribution(ls) == "[@"@ + ls[0] + "][] and [@"@ + ls[1] + "][]"@,
        exists|ps: Seq<int>|
            ps.len() == ls.len() && (forall|i: int|
                0 <= i < ls.len() ==> text::matches_at(attribution(ls), "[@"@ + ls[i] + "][]"@, #[trigger] ps[i]))
                && (forall|i: int, j: int| 0 <= i < j < ls.len() ==> ps[i] < ps[j]),
{
    let ps = lemma_attribution_positions(ls);
    assert(ps.len() == ls.len() && (forall|i: int|
        0 <= i < ls.len() ==> text::matches_at(attribution(ls), "[@"@ + ls[i] + "][]"@, #[trigger] ps[i]))
        && (forall|i: int, j: int| 0 <= i < j < ls.len() ==> ps[i] < ps[j]));
}

/// Every entry and placeholder of a pull request names its author and each of its co-authors
/// as a `[@login][]` mention.
pub proof fn lemma_entries_mention_everyone(pr: PrModel, bullet: Seq<char>, title: Seq<char>, x: Seq<char>)
    requires
        x == pr.author || pr.co_authors.contains(x),
    ensures
        exists|p: int| text::matches_at(entry_text(bullet, pr.number, attribution(logins_of(pr))), "[@"@ + x + "][]"@, p),
        exists|p: int| text::matches_at(placeholder_text(title, pr.number, attribution(logins_of(pr))), "[@"@ + x + "][]"@, p),
{
    let ls = logins_of(pr);
    lemma_logins_of(pr);
    assert(ls.contains(x));
    let k = choose|k: int| 0 <= k < ls.len() && ls[k] == x;
    let ps = lemma_attribution_positions(ls);
    let attr = attribution(ls);
    let pat = "[@"@ + x + "][]"@;
    assert(text::matches_at(attr, pat, ps[k]));
    let d = numbers::decimal(pr.number as nat);
    let pre1 = bullet + " ([#"@ + d + "][] by "@;
    lemma_matches_at_concat(pre1, attr + ")"@, pat, ps[k]);
    lemma_matches_at_concat(attr, ")"@, pat, ps[k]);
    assert(pre1 + (attr + ")"@) =~= entry_text(bullet, pr.number, attr));
    let pre2 = "no-changelog: "@ + title + " ([#"@ + d + "][] by "@;
    lemma_matches_at_concat(pre2, attr + ")"@, pat, ps[k]);
    assert(pre2 + (attr + ")"@) =~= placeholder_text(title, pr.number, attr));
}

/// The text of an entry for a bullet of pull request `n`.
pub open spec fn entry_text(bullet: Seq<char>, n: u64, attr: Seq<char>) -> Seq<char> {
    bullet + " ([#"@ + numbers::decimal(n as nat) + "][] by "@ + attr + ")"@
}

/// The text of a placeholder entry for pull request `n`.
pub open spec fn placeholder_text(title: Seq<char>, n: u64, attr: Seq<char>) -> Seq<char> {
    "no-changelog: "@ + title + " ([#"@ + numbers::decimal(n as nat) + "][] by "@ + attr + ")"@
}

// ---------------------------------------------------------------------------------------------
// Where pull requests are routed.
// ---------------------------------------------------------------------------------------------

/// The matched files are exactly those of the targets one of whose roots holds a path, each
/// path once.
proof fn lemma_matched_files(ts: Seq<TargetModel>, ps: Seq<Seq<char>>)
    ensures
        paths::distinct_paths(matched_files(ts, ps)),
        forall|y: Seq<char>|
            #[trigger] paths::has_path(matched_files(ts, ps), y) <==> exists|t: int|
                0 <= t < ts.len() && paths::path_eq(#[trigger] ts[t].file, y) && root_matches(
                    ts[t].roots,
                    ps,
                ),
    decreases ts.len(),
{
    if ts.len() > 0 {
        let p = ts.drop_last();
        let m = matched_files(p, ps);
        lemma_matched_files(p, ps);
        paths::lemma_insert_path(m, ts.last().file);
        assert forall|y: Seq<char>| #[trigger] paths::has_path(matched_files(ts, ps), y) <==> exists|t: int|
            0 <= t < ts.len() && paths::path_eq(#[trigger] ts[t].file, y) && root_matches(ts[t].roots, ps) by {
            if exists|t: int| 0 <= t < ts.len() && paths::path_eq(#[trigger] ts[t].file, y) && root_matches(ts[t].roots, ps) {
                let t = choose|t: int| 0 <= t < ts.len() && paths::path_eq(#[trigger] ts[t].file, y) && root_matches(ts[t].roots, ps);
                if t < ts.len() - 1 {
                    assert(p[t] == ts[t]);
                }
            }
            if exists|t: int| 0 <= t < p.len() && paths::path_eq(#[trigger] p[t].file, y) && root_matches(p[t].roots, ps) {
                let t = choose|t: int| 0 <= t < p.len() && paths::path_eq(#[trigger] p[t].file, y) && root_matches(p[t].roots, ps);
                assert(ts[t] == p[t]);
            }
        }
    }
}

/// A pull request is routed to every registered changelog one of whose roots holds one of
/// its non-ignored changed paths, each once; when there is none, to the default changelog
/// alone.
pub proof fn lemma_route_files(cfg: ConfigModel, changed: Seq<Seq<char>>)
    ensures
        ({
            let ps = non_ignored(cfg.ignore_paths, changed);
            let r = route_files(cfg, changed);
            &&& r.len() > 0
            &&& paths::distinct_paths(r)
            &&& (forall|t: int|
                0 <= t < cfg.changelogs.len() ==> !root_matches(#[trigger] cfg.changelogs[t].roots, ps))
                ==> r == seq![cfg.default_changelog]
            &&& (exists|t: int|
                0 <= t < cfg.changelogs.len() && root_matches(#[trigger] cfg.changelogs[t].roots, ps))
                ==> forall|y: Seq<char>|
                #[trigger] paths::has_path(r, y) <==> exists|t: int|
                    0 <= t < cfg.changelogs.len() && paths::path_eq(#[trigger] cfg.changelogs[t].file, y)
                        && root_matches(cfg.changelogs[t].roots, ps)
        }),
{
    let ps = non_ignored(cfg.ignore_paths, changed);
    let m = matched_files(cfg.changelogs, ps);
    lemma_matched_files(cfg.changelogs, ps);
    if exists|t: int| 0 <= t < cfg.changelogs.len() && root_matches(#[trigger] cfg.changelogs[t].roots, ps) {
        let t = choose|t: int| 0 <= t < cfg.changelogs.len() && root_matches(#[trigger] cfg.changelogs[t].roots, ps);
        assert(paths::path_eq(cfg.changelogs[t].file, cfg.changelogs[t].file));
        assert(paths::has_path(m, cfg.changelogs[t].file));
    } else {
        if m.len() > 0 {
            assert(paths::path_eq(m[0], m[0]));
            assert(paths::has_path(m, m[0]));
        }
    }
}

// ---------------------------------------------------------------------------------------------
// Attribution names each person once, the author first.
// ---------------------------------------------------------------------------------------------

/// What [`dedup`] keeps: no repeats, exactly the elements of `s`, and its first element.
pub proof fn lemma_dedup(s: Seq<Seq<char>>)
    ensures
        dedup(s).no_duplicates(),
        forall|x: Seq<char>| #[trigger] dedup(s).contains(x) <==> s.contains(x),
        s.len() > 0 ==> dedup(s).len() > 0 && dedup(s)[0] == s[0],
    decreases s.len(),
{
    if s.len() > 0 {
        let p = s.drop_last();
        lemma_dedup(p);
        let d = dedup(p);
        assert forall|x: Seq<char>| #[trigger] dedup(s).contains(x) <==> s.contains(x) by {
            let l = s.last();
            assert(s.contains(x) <==> (p.contains(x) || x == l)) by {
                if s.contains(x) && x != l {
                    let k = choose|k: int| 0 <= k < s.len() && s[k] == x;
                    assert(p[k] == x);
                }
                if p.contains(x) {
                    let k = choose|k: int| 0 <= k < p.len() && p[k] == x;
                    assert(s[k] == x);
                }
                if x == l {
                    assert(s[s.len() - 1] == x);
                }
            }
            assert(d.push(l).contains(x) <==> (d.contains(x) || x == l)) by {
                if d.push(l).contains(x) && x != l {
                    let k = choose|k: int| 0 <= k < d.push(l).len() && d.push(l)[k] == x;
                    assert(d[k] == x);
                }
                if d.contains(x) {
                    let k = choose|k: int| 0 <= k < d.len() && d[k] == x;
                    assert(d.push(l)[k] == x);
                }
                if x == l {
                    assert(d.push(l)[d.len() as int] == x);
                }
            }
        }
        if p.len() == 0 {
            assert(d.len() == 0);
            assert(!d.contains(s.last()));
            assert(dedup(s) == d.push(s.last()));
        } else {
            assert(p[0] == s[0]);
        }
    }
}

/// The logins a pull request is attributed to name each person once, the author first.
pub proof fn lemma_logins_of(pr: PrModel)
    ensures
        logins_of(pr).no_duplicates(),
        logins_of(pr).len() > 0,
        logins_of(pr)[0] == pr.author,
        forall|x: Seq<char>|
            #[trigger] logins_of(pr).contains(x) <==> (x == pr.author || pr.co_authors.contains(x)),
{
    let s = seq![pr.author] + pr.co_authors;
    lemma_dedup(s);
    assert(s[0] == pr.author);
    assert forall|x: Seq<char>| #[trigger] s.contains(x) <==> (x == pr.author || pr.co_authors.contains(x)) by {
        if s.contains(x) && x != pr.author {
            let k = choose|k: int| 0 <= k < s.len() && s[k] == x;
            assert(pr.co_authors[k - 1] == x);
        }
        if pr.co_authors.contains(x) {
            let k = choose|k: int| 0 <= k < pr.co_authors.len() && pr.co_authors[k] == x;
            assert(s[k + 1] == x);
        }
        if x == pr.author {
            assert(s[0] == x);
        }
    }
}

// ---------------------------------------------------------------------------------------------
// Specification: accumulation per changelog file.
// ---------------------------------------------------------------------------------------------

/// What is gathered for one changelog file.
pub struct AccModel {
    pub file: Seq<char>,
    /// Section name to entries, sorted by name.
    pub sections: Seq<(Seq<char>, Seq<EntryModel>)>,
    pub placeholders: Seq<EntryModel>,
    /// Sorted, without repeats.
    pub prs: Seq<u64>,
    /// Sorted, without repeats.
    pub authors: Seq<Seq<char>>,
}

/// Nothing gathered yet for `file`.
pub open spec fn empty_acc(file: Seq<char>) -> AccModel {
    AccModel { file, sections: seq![], placeholders: seq![], prs: seq![], authors: seq![] }
}

/// The first position at or after `i` holding a number above `n`.
pub open spec fn u64_pos(s: Seq<u64>, n: u64, i: int) -> int
    decreases s.len() - i,
{
    if i < 0 || i >= s.len() {
        s.len() as int
    } else if n < s[i] {
        i
    } else {
        u64_pos(s, n, i + 1)
    }
}

/// A sorted set of numbers with `n` added (`BTreeSet<u64>::insert`).
pub open spec fn insert_u64(s: Seq<u64>, n: u64) -> Seq<u64> {
    if s.contains(n) {
        s
    } else {
        s.insert(u64_pos(s, n, 0), n)
    }
}

/// The first position at or after `i` holding a text that sorts after `x`.
pub open spec fn str_pos(s: Seq<Seq<char>>, x: Seq<char>, i: int) -> int
    decreases s.len() - i,
{
    if i < 0 || i >= s.len() {
        s.len() as int
    } else if text::lex_lt(x, s[i]) {
        i
    } else {
        str_pos(s, x, i + 1)
    }
}

/// A sorted set of texts with `x` added (`BTreeSet<String>::insert`).
pub open spec fn insert_str(s: Seq<Seq<char>>, x: Seq<char>) -> Seq<Seq<char>> {
    if s.contains(x) {
        s
    } else {
        s.insert(str_pos(s, x, 0), x)
    }
}

/// A sorted set of texts with each of `xs` added, in order.
pub open spec fn insert_strs(s: Seq<Seq<char>>, xs: Seq<Seq<char>>) -> Seq<Seq<char>>
    decreases xs.len(),
{
    if xs.len() == 0 {
        s
    } else {
        insert_str(insert_strs(s, xs.drop_last()), xs.last())
    }
}

/// The first section at or after `i` named `name`.
pub open spec fn find_name(secs: Seq<(Seq<char>, Seq<EntryModel>)>, name: Seq<char>, i: int) -> Option<
    int,
>
    decreases secs.len() - i,
{
    if i < 0 || i >= secs.len() {
        None
    } else if secs[i].0 == name {
        Some(i)
    } else {
        find_name(secs, name, i + 1)
    }
}

/// The first section at or after `i` whose name sorts after `name`.
pub open spec fn name_pos(secs: Seq<(Seq<char>, Seq<EntryModel>)>, name: Seq<char>, i: int) -> int
    decreases secs.len() - i,
{
    if i < 0 || i >= secs.len() {
        secs.len() as int
    } else if text::lex_lt(name, secs[i].0) {
        i
    } else {
        name_pos(secs, name, i + 1)
    }
}

/// Sections with an entry appended under `name` (`entry(name).or_default().push(e)` on a
/// `BTreeMap<String, Vec<_>>`).
pub open spec fn add_section_entry(
    secs: Seq<(Seq<char>, Seq<EntryModel>)>,
    name: Seq<char>,
    e: EntryModel,
) -> Seq<(Seq<char>, Seq<EntryModel>)> {
    match find_name(secs, name, 0) {
        Some(k) => secs.update(k, (name, secs[k].1.push(e))),
        None => secs.insert(name_pos(secs, name, 0), (name, seq![e])),
    }
}

/// Sections with an entry for each bullet added under `name`.
pub open spec fn add_bullets(
    secs: Seq<(Seq<char>, Seq<EntryModel>)>,
    name: Seq<char>,
    n: u64,
    bullets: Seq<Seq<char>>,
    attr: Seq<char>,
) -> Seq<(Seq<char>, Seq<EntryModel>)>
    decreases bullets.len(),
{
    if bullets.len() == 0 {
        secs
    } else {
        add_section_entry(
            add_bullets(secs, name, n, bullets.drop_last(), attr),
            name,
            (n, entry_text(bullets.last(), n, attr)),
        )
    }
}

/// Sections with every bullet of a pull request's changelog sections added.
pub open spec fn add_sections(
    secs: Seq<(Seq<char>, Seq<EntryModel>)>,
    n: u64,
    sections: Seq<SectionModel>,
    attr: Seq<char>,
) -> Seq<(Seq<char>, Seq<EntryModel>)>
    decreases sections.len(),
{
    if sections.len() == 0 {
        secs
    } else {
        add_bullets(
            add_sections(secs, n, sections.drop_last(), attr),
            sections.last().name,
            n,
            sections.last().bullets,
            attr,
        )
    }
}

/// An accumulator with a pull request's section entries added.
pub open spec fn acc_add_sections(
    acc: AccModel,
    n: u64,
    sections: Seq<SectionModel>,
    logins: Seq<Seq<char>>,
    attr: Seq<char>,
) -> AccModel {
    AccModel {
        sections: add_sections(acc.sections, n, sections, attr),
        prs: insert_u64(acc.prs, n),
        authors: insert_strs(acc.authors, logins),
        ..acc
    }
}

/// An accumulator with a pull request's placeholder entry added.
pub open spec fn acc_add_placeholder(acc: AccModel, n: u64, t: Seq<char>, logins: Seq<Seq<char>>) -> AccModel {
    AccModel {
        placeholders: acc.placeholders.push((n, t)),
        prs: insert_u64(acc.prs, n),
        authors: insert_strs(acc.authors, logins),
        ..acc
    }
}

/// The files of the accumulators.
pub open spec fn acc_files(accs: Seq<AccModel>) -> Seq<Seq<char>> {
    accs.map_values(|a: AccModel| a.file)
}

/// The accumulators with one for `file` present, and its index (`entry(file).or_default()`).
pub open spec fn with_acc(accs: Seq<AccModel>, file: Seq<char>) -> (Seq<AccModel>, int) {
    match paths::find_path(acc_files(accs), file, 0) {
        Some(k) => (accs, k),
        None => {
            let pos = paths::path_pos(acc_files(accs), file, 0);
            (accs.insert(pos, empty_acc(file)), pos)
        },
    }
}

/// The counts with `c` added for `file` (nothing when `c` is zero).
pub open spec fn add_count(counts: Seq<(Seq<char>, nat)>, file: Seq<char>, c: nat) -> Seq<
    (Seq<char>, nat),
> {
    if c == 0 {
        counts
    } else {
        let files = counts.map_values(|e: (Seq<char>, nat)| e.0);
        match paths::find_path(files, file, 0) {
            Some(k) => counts.update(k, (counts[k].0, counts[k].1 + c)),
            None => counts.insert(paths::path_pos(files, file, 0), (file, c)),
        }
    }
}

/// The state of the processing stage after some pull requests.
pub struct StateModel {
    pub accs: Seq<AccModel>,
    pub counts: Seq<(Seq<char>, nat)>,
    pub placeholders: nat,
    pub none_skipped: nat,
}

/// The number of bullets of a changelog block.
pub open spec fn bullet_count(sections: Seq<SectionModel>) -> nat
    decreases sections.len(),
{
    if sections.len() == 0 {
        0
    } else {
        bullet_count(sections.drop_last()) + sections.last().bullets.len()
    }
}

/// The state after a pull request's sections were added to each of `targets`.
pub open spec fn apply_sections(
    st: StateModel,
    targets: Seq<Seq<char>>,
    n: u64,
    sections: Seq<SectionModel>,
    logins: Seq<Seq<char>>,
    attr: Seq<char>,
) -> StateModel
    decreases targets.len(),
{
    if targets.len() == 0 {
        st
    } else {
        let prev = apply_sections(st, targets.drop_last(), n, sections, logins, attr);
        let (accs, k) = with_acc(prev.accs, targets.last());
        StateModel {
            accs: accs.update(k, acc_add_sections(accs[k], n, sections, logins, attr)),
            counts: add_count(prev.counts, targets.last(), bullet_count(sections)),
            ..prev
        }
    }
}

/// The state after a pull request's placeholder was added to each of `targets`.
pub open spec fn apply_placeholder(
    st: StateModel,
    targets: Seq<Seq<char>>,
    n: u64,
    t: Seq<char>,
    logins: Seq<Seq<char>>,
) -> StateModel
    decreases targets.len(),
{
    if targets.len() == 0 {
        st
    } else {
        let prev = apply_placeholder(st, targets.drop_last(), n, t, logins);
        let (accs, k) = with_acc(prev.accs, targets.last());
        StateModel {
            accs: accs.update(k, acc_add_placeholder(accs[k], n, t, logins)),
            counts: add_count(prev.counts, targets.last(), 1),
            placeholders: prev.placeholders + 1,
            ..prev
        }
    }
}

/// The state after one more pull request.
pub open spec fn step(st: StateModel, pr: PrModel, cfg: ConfigModel) -> StateModel {
    let targets = route_files(cfg, pr.changed_paths);
    let logins = logins_of(pr);
    let attr = attribution(logins);
    match extract::extract(pr.body) {
        extract::ExtractionModel::NoneOptOut => StateModel {
            none_skipped: st.none_skipped + 1,
            ..st
        },
        extract::ExtractionModel::Sections(sections) => apply_sections(
            st,
            targets,
            pr.number,
            sections,
            logins,
            attr,
        ),
        extract::ExtractionModel::Placeholder => apply_placeholder(
            st,
            targets,
            pr.number,
            placeholder_text(pr.title, pr.number, attr),
            logins,
        ),
    }
}

/// The state before any pull request.
pub open spec fn initial_state() -> StateModel {
    StateModel { accs: seq![], counts: seq![], placeholders: 0, none_skipped: 0 }
}

/// The state after the given pull requests, in order.
pub open spec fn gather(prs: Seq<PrModel>, cfg: ConfigModel) -> StateModel
    decreases prs.len(),
{
    if prs.len() == 0 {
        initial_state()
    } else {
        step(gather(prs.drop_last(), cfg), prs.last(), cfg)
    }
}

// ---------------------------------------------------------------------------------------------
// Specification: producing the new file contents.
// ---------------------------------------------------------------------------------------------

/// The content given for `file`, if any (looked up by path).
pub open spec fn lookup(current: Seq<(Seq<char>, Seq<char>)>, file: Seq<char>) -> Option<Seq<char>> {
    match paths::find_path(current.map_values(|e: (Seq<char>, Seq<char>)| e.0), file, 0) {
        Some(k) => Some(current[k].1),
        None => None,
    }
}

/// The new content for each accumulated file, in order, or the first error.
pub open spec fn finish(
    accs: Seq<AccModel>,
    repo: Seq<char>,
    current: Seq<(Seq<char>, Seq<char>)>,
) -> Result<Seq<(Seq<char>, Seq<char>)>, ErrorModel>
    decreases accs.len(),
{
    if accs.len() == 0 {
        Ok(seq![])
    } else {
        let a = accs[0];
        match lookup(current, a.file) {
            None => Err(ErrorModel::MissingContent(a.file)),
            Some(content) => match merge::merge(content, a.sections, a.placeholders) {
                None => Err(ErrorModel::NoUnreleasedHeading),
                Some(merged) => match finish(accs.drop_first(), repo, current) {
                    Err(e) => Err(e),
                    Ok(rest) => Ok(
                        seq![(a.file, refdefs::update_defs(merged, repo, a.prs, a.authors))]
                            + rest,
                    ),
                },
            },
        }
    }
}

/// The views of pairs of strings.
pub open spec fn pair_views(v: Seq<(String, String)>) -> Seq<(Seq<char>, Seq<char>)> {
    v.map_values(|e: (String, String)| (e.0@, e.1@))
}

/// The views of per-file counts.
pub open spec fn count_views(v: Seq<(String, usize)>) -> Seq<(Seq<char>, nat)> {
    v.map_values(|e: (String, usize)| (e.0@, e.1 as nat))
}

// ---------------------------------------------------------------------------------------------
// Implementation: routing.
// ---------------------------------------------------------------------------------------------

/// A copy of a string.
pub fn copy_string(s: &String) -> (r: String)
    ensures
        r@ == s@,
{
    string_of(&chars_of(s.as_str()))
}

/// Whether `p` is one of the ignored paths.
fn ignored(ignores: &Vec<String>, p: &String) -> (r: bool)
    ensures
        r == is_ignored(text::string_views(ignores@), p@),
{
    let ghost iv = text::string_views(ignores@);
    let mut k: usize = 0;
    while k < ignores.len()
        invariant
            k <= ignores.len(),
            iv == text::string_views(ignores@),
            forall|j: int| 0 <= j < k ==> !paths::path_eq(#[trigger] iv[j], p@),
        decreases ignores.len() - k,
    {
        if paths_equal(ignores[k].as_str(), p.as_str()) {
            assert(paths::path_eq(iv[k as int], p@));
            return true;
        }
        k += 1;
    }
    false
}

/// The changed paths that are not ignored.
fn non_ignored_paths(ignores: &Vec<String>, changed: &Vec<String>) -> (r: Vec<String>)
    ensures
        text::string_views(r@) == non_ignored(text::string_views(ignores@), text::string_views(changed@)),
{
    let ghost cv = text::string_views(changed@);
    let ghost iv = text::string_views(ignores@);
    let mut r: Vec<String> = Vec::new();
    let mut i: usize = 0;
    assert(cv.take(0) =~= Seq::<Seq<char>>::empty());
    while i < changed.len()
        invariant
            i <= changed.len(),
            cv == text::string_views(changed@),
            iv == text::string_views(ignores@),
            text::string_views(r@) == non_ignored(iv, cv.take(i as int)),
        decreases changed.len() - i,
    {
        let ghost before = text::string_views(r@);
        assert(cv.take(i + 1).drop_last() =~= cv.take(i as int));
        assert(cv.take(i + 1).last() == changed@[i as int]@);
        if !ignored(ignores, &changed[i]) {
            r.push(copy_string(&changed[i]));
            assert(text::string_views(r@) =~= before + seq![changed@[i as int]@]);
        } else {
            assert(text::string_views(r@) =~= before + Seq::<Seq<char>>::empty());
        }
        i += 1;
    }
    assert(cv.take(changed.len() as int) =~= cv);
    r
}

/// Whether one of `paths` lies under one of `roots`.
fn roots_match(roots: &Vec<String>, paths: &Vec<String>) -> (r: bool)
    ensures
        r == root_matches(text::string_views(roots@), text::string_views(paths@)),
{
    let ghost rv = text::string_views(roots@);
    let ghost pv = text::string_views(paths@);
    let mut a: usize = 0;
    while a < roots.len()
        invariant
            a <= roots.len(),
            rv == text::string_views(roots@),
            pv == text::string_views(paths@),
            forall|x: int, y: int|
                0 <= x < a && 0 <= y < pv.len() ==> !paths::path_starts_with(
                    #[trigger] pv[y],
                    #[trigger] rv[x],
                ),
        decreases roots.len() - a,
    {
        let mut b: usize = 0;
        while b < paths.len()
            invariant
                a < roots.len(),
                b <= paths.len(),
                rv == text::string_views(roots@),
                pv == text::string_views(paths@),
                forall|x: int, y: int|
                    0 <= x < a && 0 <= y < pv.len() ==> !paths::path_starts_with(
                        #[trigger] pv[y],
                        #[trigger] rv[x],
                    ),
                forall|y: int| 0 <= y < b ==> !paths::path_starts_with(#[trigger] pv[y], rv[a as int]),
            decreases paths.len() - b,
        {
            if path_has_prefix(paths[b].as_str(), roots[a].as_str()) {
                assert(paths::path_starts_with(pv[b as int], rv[a as int]));
                return true;
            }
            b += 1;
        }
        a += 1;
    }
    false
}

/// Determines which changelog files a pull request's changed paths route to.
///
/// A changelog matches if any of its roots contains a non-ignored changed path. If no
/// registered changelog matches (typically because every changed path is ignored), the pull
/// request falls back to the default changelog.
pub fn route(config: &Config, changed_paths: &Vec<String>) -> (r: Vec<String>)
    ensures
        text::string_views(r@) == route_files(config@, text::string_views(changed_paths@)),
{
    let ni = non_ignored_paths(&config.ignore_paths, changed_paths);
    let ghost ts = config@.changelogs;
    let mut m: Vec<String> = Vec::new();
    let mut i: usize = 0;
    assert(ts.take(0) =~= Seq::<TargetModel>::empty());
    while i < config.changelogs.len()
        invariant
            i <= config.changelogs.len(),
            ts == config@.changelogs,
            text::string_views(m@) == matched_files(ts.take(i as int), text::string_views(ni@)),
        decreases config.changelogs.len() - i,
    {
        assert(ts.take(i + 1).drop_last() =~= ts.take(i as int));
        assert(ts.take(i + 1).last() == config.changelogs@[i as int]@);
        if roots_match(&config.changelogs[i].roots, &ni) {
            paths::add_path_last(&mut m, copy_string(&config.changelogs[i].file));
        }
        i += 1;
    }
    assert(ts.take(config.changelogs.len() as int) =~= ts);
    if m.len() == 0 {
        let mut d: Vec<String> = Vec::new();
        d.push(copy_string(&config.default_changelog));
        assert(text::string_views(d@) =~= seq![config@.default_changelog]);
        d
    } else {
        m
    }
}

// ---------------------------------------------------------------------------------------------
// Implementation: attribution.
// ---------------------------------------------------------------------------------------------

/// Whether `v` holds `x`.
fn contains_string(v: &Vec<String>, x: &String) -> (r: bool)
    ensures
        r == text::string_views(v@).contains(x@),
{
    let ghost vv = text::string_views(v@);
    let mut i: usize = 0;
    while i < v.len()
        invariant
            i <= v.len(),
            vv == text::string_views(v@),
            forall|k: int| 0 <= k < i ==> vv[k] != x@,
        decreases v.len() - i,
    {
        if chars_eq(&chars_of(v[i].as_str()), &chars_of(x.as_str())) {
            assert(vv[i as int] == x@);
            return true;
        }
        i += 1;
    }
    false
}

/// Collects the deduplicated, order-preserving list of attributed logins (author first, then
/// co-authors) for a pull request.
pub fn attribution_logins(pr: &PrData) -> (r: Vec<String>)
    ensures
        text::string_views(r@) == logins_of(pr@),
{
    let ghost all = seq![pr@.author] + pr@.co_authors;
    let mut logins: Vec<String> = Vec::new();
    logins.push(copy_string(&pr.author));
    assert(all.take(1) =~= seq![pr@.author]);
    assert(dedup(all.take(1)) == dedup(Seq::<Seq<char>>::empty()).push(pr@.author)) by {
        assert(all.take(1).drop_last() =~= Seq::<Seq<char>>::empty());
    }
    assert(text::string_views(logins@) =~= dedup(all.take(1)));
    let mut i: usize = 0;
    while i < pr.co_authors.len()
        invariant
            i <= pr.co_authors.len(),
            all == seq![pr@.author] + pr@.co_authors,
            text::string_views(logins@) == dedup(all.take(i + 1)),
        decreases pr.co_authors.len() - i,
    {
        let ghost before = text::string_views(logins@);
        assert(all.take(i + 2).drop_last() =~= all.take(i + 1));
        assert(all.take(i + 2).last() == pr.co_authors@[i as int]@);
        if !contains_string(&logins, &pr.co_authors[i]) {
            logins.push(copy_string(&pr.co_authors[i]));
            assert(text::string_views(logins@) =~= before.push(pr.co_authors@[i as int]@));
        }
        i += 1;
    }
    assert(all.take(pr.co_authors.len() + 1) =~= all);
    logins
}

/// `[@login][]`.
fn mention_of(l: &String) -> (r: Vec<char>)
    ensures
        r@ == mention(l@),
{
    let mut r = chars_of("[@");
    append_chars(&mut r, &chars_of(l.as_str()));
    append_chars(&mut r, &chars_of("][]"));
    r
}

/// Renders `[@a][] and [@b][]`-style attribution (without the leading `by `).
pub fn format_attribution(logins: &Vec<String>) -> (r: String)
    ensures
        r@ == attribution(text::string_views(logins@)),
{
    let ghost lv = text::string_views(logins@);
    let n = logins.len();
    if n == 0 {
        return String::new();
    }
    if n == 1 {
        return string_of(&mention_of(&logins[0]));
    }
    if n == 2 {
        let mut r = mention_of(&logins[0]);
        append_chars(&mut r, &chars_of(" and "));
        append_chars(&mut r, &mention_of(&logins[1]));
        return string_of(&r);
    }
    // Mentions of all but the last, separated by ", ", built from the back.
    let mut joined = mention_of(&logins[n - 2]);
    let mut k: usize = n - 2;
    assert(lv.drop_last().skip(k as int) =~= seq![lv[k as int]]);
    while k > 0
        invariant
            k <= n - 2,
            n == logins.len(),
            n >= 3,
            lv == text::string_views(logins@),
            joined@ == mention_list(lv.drop_last().skip(k as int)),
        decreases k,
    {
        let mut front = mention_of(&logins[k - 1]);
        append_chars(&mut front, &chars_of(", "));
        append_chars(&mut front, &joined);
        proof {
            let tail = lv.drop_last().skip(k - 1);
            assert(tail.len() >= 2);
            assert(tail.drop_first() =~= lv.drop_last().skip(k as int));
            assert(tail[0] == lv[k - 1]);
        }
        joined = front;
        k -= 1;
    }
    assert(lv.drop_last().skip(0) =~= lv.drop_last());
    append_chars(&mut joined, &chars_of(", and "));
    append_chars(&mut joined, &mention_of(&logins[n - 1]));
    string_of(&joined)
}

/// The text of an entry for a bullet of pull request `n`.
fn entry_text_of(bullet: &String, n: u64, attr: &String) -> (r: String)
    ensures
        r@ == entry_text(bullet@, n, attr@),
{
    let mut r = chars_of(bullet.as_str());
    append_chars(&mut r, &chars_of(" ([#"));
    append_chars(&mut r, &numbers::decimal_chars(n));
    append_chars(&mut r, &chars_of("][] by "));
    append_chars(&mut r, &chars_of(attr.as_str()));
    append_chars(&mut r, &chars_of(")"));
    string_of(&r)
}

/// The text of a placeholder entry for pull request `n`.
fn placeholder_text_of(title: &String, n: u64, attr: &String) -> (r: String)
    ensures
        r@ == placeholder_text(title@, n, attr@),
{
    let mut r = chars_of("no-changelog: ");
    append_chars(&mut r, &chars_of(title.as_str()));
    append_chars(&mut r, &chars_of(" ([#"));
    append_chars(&mut r, &numbers::decimal_chars(n));
    append_chars(&mut r, &chars_of("][] by "));
    append_chars(&mut r, &chars_of(attr.as_str()));
    append_chars(&mut r, &chars_of(")"));
    string_of(&r)
}

// ---------------------------------------------------------------------------------------------
// Implementation: accumulation.
// ---------------------------------------------------------------------------------------------

/// What is gathered for one changelog file.
pub struct FileAccumulator {
    pub file: String,
    pub sections: Vec<(String, Vec<(u64, String)>)>,
    pub placeholders: Vec<(u64, String)>,
    pub pr_numbers: Vec<u64>,
    pub authors: Vec<String>,
}

impl View for FileAccumulator {
    type V = AccModel;

    open spec fn view(&self) -> AccModel {
        AccModel {
            file: self.file@,
            sections: merge::section_entry_views(self.sections@),
            placeholders: merge::string_entry_views(self.placeholders@),
            prs: self.pr_numbers@,
            authors: text::string_views(self.authors@),
        }
    }
}

/// The models of a sequence of accumulators.
pub open spec fn acc_views(v: Seq<FileAccumulator>) -> Seq<AccModel> {
    v.map_values(|a: FileAccumulator| a@)
}

/// Adds `n` to a sorted set of numbers.
fn insert_u64_set(s: &mut Vec<u64>, n: u64)
    ensures
        final(s)@ == insert_u64(old(s)@, n),
{
    let mut i: usize = 0;
    while i < s.len()
        invariant
            i <= s.len(),
            s@ == old(s)@,
            forall|k: int| 0 <= k < i ==> s@[k] != n,
        decreases s.len() - i,
    {
        if s[i] == n {
            assert(s@[i as int] == n);
            return;
        }
        i += 1;
    }
    assert(!s@.contains(n));
    let mut pos: usize = 0;
    while pos < s.len() && !(n < s[pos])
        invariant
            pos <= s.len(),
            s@ == old(s)@,
            u64_pos(s@, n, 0) == u64_pos(s@, n, pos as int),
        decreases s.len() - pos,
    {
        pos += 1;
    }
    s.insert(pos, n);
}

/// Adds `x` to a sorted set of texts.
fn insert_str_set(s: &mut Vec<String>, x: &String)
    ensures
        text::string_views(final(s)@) == insert_str(text::string_views(old(s)@), x@),
{
    let ghost sv = text::string_views(s@);
    if contains_string(s, x) {
        return;
    }
    let xc = chars_of(x.as_str());
    let mut pos: usize = 0;
    while pos < s.len() && !lex_less(&xc, &chars_of(s[pos].as_str()))
        invariant
            pos <= s.len(),
            sv == text::string_views(s@),
            xc@ == x@,
            str_pos(sv, x@, 0) == str_pos(sv, x@, pos as int),
        decreases s.len() - pos,
    {
        pos += 1;
    }
    s.insert(pos, copy_string(x));
    assert(text::string_views(s@) =~= sv.insert(pos as int, x@));
}

/// Adds each of `xs` to a sorted set of texts.
fn insert_str_all(s: &mut Vec<String>, xs: &Vec<String>)
    ensures
        text::string_views(final(s)@) == insert_strs(text::string_views(old(s)@), text::string_views(xs@)),
{
    let ghost xv = text::string_views(xs@);
    let mut i: usize = 0;
    assert(xv.take(0) =~= Seq::<Seq<char>>::empty());
    while i < xs.len()
        invariant
            i <= xs.len(),
            xv == text::string_views(xs@),
            text::string_views(s@) == insert_strs(text::string_views(old(s)@), xv.take(i as int)),
        decreases xs.len() - i,
    {
        assert(xv.take(i + 1).drop_last() =~= xv.take(i as int));
        assert(xv.take(i + 1).last() == xs@[i as int]@);
        insert_str_set(s, &xs[i]);
        i += 1;
    }
    assert(xv.take(xs.len() as int) =~= xv);
}

/// Appends an entry under `name`, creating the section in name order if needed.
fn add_entry(secs: &mut Vec<(String, Vec<(u64, String)>)>, name: &String, n: u64, t: String)
    ensures
        merge::section_entry_views(final(secs)@) == add_section_entry(
            merge::section_entry_views(old(secs)@),
            name@,
            (n, t@),
        ),
{
    let ghost sv = merge::section_entry_views(secs@);
    let ghost tv = t@;
    let nc = chars_of(name.as_str());
    let mut i: usize = 0;
    while i < secs.len()
        invariant
            i <= secs.len(),
            sv == merge::section_entry_views(secs@),
            sv == merge::section_entry_views(old(secs)@),
            nc@ == name@,
            tv == t@,
            find_name(sv, name@, 0) == find_name(sv, name@, i as int),
        decreases secs.len() - i,
    {
        assert(sv[i as int].0 == secs@[i as int].0@);
        if chars_eq(&chars_of(secs[i].0.as_str()), &nc) {
            let removed = secs.remove(i);
            let sname = removed.0;
            let mut entries = removed.1;
            let ghost old_entries = merge::string_entry_views(entries@);
            assert(old_entries == sv[i as int].1);
            let pair = (n, t);
            assert(pair.1@ == tv);
            entries.push(pair);
            proof {
                let ev = merge::string_entry_views(entries@);
                assert forall|k: int| 0 <= k < ev.len() implies ev[k] == old_entries.push((n, tv))[k] by {
                    if k < ev.len() - 1 {
                        assert(entries@[k] == removed.1@[k]);
                    }
                }
                assert(ev =~= old_entries.push((n, tv)));
            }
            secs.insert(i, (sname, entries));
            assert(merge::section_entry_views(secs@) =~= sv.update(
                i as int,
                (name@, sv[i as int].1.push((n, tv))),
            ));
            return;
        }
        i += 1;
    }
    let mut pos: usize = 0;
    while pos < secs.len() && !lex_less(&nc, &chars_of(secs[pos].0.as_str()))
        invariant
            pos <= secs.len(),
            sv == merge::section_entry_views(secs@),
            nc@ == name@,
            name_pos(sv, name@, 0) == name_pos(sv, name@, pos as int),
        decreases secs.len() - pos,
    {
        assert(sv[pos as int].0 == secs@[pos as int].0@);
        pos += 1;
    }
    if pos < secs.len() {
        assert(sv[pos as int].0 == secs@[pos as int].0@);
    }
    let mut entries: Vec<(u64, String)> = Vec::new();
    entries.push((n, t));
    assert(merge::string_entry_views(entries@) =~= seq![(n, tv)]);
    secs.insert(pos, (copy_string(name), entries));
    assert(merge::section_entry_views(secs@) =~= sv.insert(pos as int, (name@, seq![(n, tv)])));
}

/// Adds every bullet of a pull request's changelog sections to an accumulator's sections.
fn add_pr_sections(
    secs: &mut Vec<(String, Vec<(u64, String)>)>,
    n: u64,
    sections: &Vec<ChangelogSection>,
    attr: &String,
)
    ensures
        merge::section_entry_views(final(secs)@) == add_sections(
            merge::section_entry_views(old(secs)@),
            n,
            extract::section_views(sections@),
            attr@,
        ),
{
    let ghost xs = extract::section_views(sections@);
    let mut i: usize = 0;
    assert(xs.take(0) =~= Seq::<SectionModel>::empty());
    while i < sections.len()
        invariant
            i <= sections.len(),
            xs == extract::section_views(sections@),
            merge::section_entry_views(secs@) == add_sections(
                merge::section_entry_views(old(secs)@),
                n,
                xs.take(i as int),
                attr@,
            ),
        decreases sections.len() - i,
    {
        assert(xs.take(i + 1).drop_last() =~= xs.take(i as int));
        assert(xs.take(i + 1).last() == sections@[i as int]@);
        let ghost base = merge::section_entry_views(secs@);
        let bullets = &sections[i].bullets;
        let ghost bv = text::string_views(bullets@);
        let mut j: usize = 0;
        assert(bv.take(0) =~= Seq::<Seq<char>>::empty());
        while j < bullets.len()
            invariant
                j <= bullets.len(),
                i < sections.len(),
                bv == text::string_views(bullets@),
                bullets == &sections@[i as int].bullets,
                merge::section_entry_views(secs@) == add_bullets(
                    base,
                    sections@[i as int].name@,
                    n,
                    bv.take(j as int),
                    attr@,
                ),
            decreases bullets.len() - j,
        {
            assert(bv.take(j + 1).drop_last() =~= bv.take(j as int));
            assert(bv.take(j + 1).last() == bullets@[j as int]@);
            let t = entry_text_of(&bullets[j], n, attr);
            add_entry(secs, &sections[i].name, n, t);
            j += 1;
        }
        assert(bv.take(bullets.len() as int) =~= bv);
        i += 1;
    }
    assert(xs.take(sections.len() as int) =~= xs);
}

/// The index of the accumulator for `file`, created empty (in path order) if needed.
fn acc_index(accs: &mut Vec<FileAccumulator>, file: &String) -> (r: usize)
    ensures
        (acc_views(final(accs)@), r as int) == with_acc(acc_views(old(accs)@), file@),
        r < final(accs)@.len(),
{
    let ghost av = acc_views(accs@);
    let mut files: Vec<String> = Vec::new();
    let mut i: usize = 0;
    while i < accs.len()
        invariant
            i <= accs.len(),
            av == acc_views(accs@),
            files@.len() == i,
            forall|k: int| 0 <= k < i ==> (#[trigger] files@[k])@ == accs@[k].file@,
        decreases accs.len() - i,
    {
        files.push(copy_string(&accs[i].file));
        i += 1;
    }
    assert(text::string_views(files@) =~= acc_files(av));
    match paths::find_path_index(&files, file.as_str()) {
        Some(k) => k,
        None => {
            let pos = paths::path_position(&files, file.as_str());
            let acc = FileAccumulator {
                file: copy_string(file),
                sections: Vec::new(),
                placeholders: Vec::new(),
                pr_numbers: Vec::new(),
                authors: Vec::new(),
            };
            assert(merge::section_entry_views(acc.sections@) =~= Seq::<(Seq<char>, Seq<EntryModel>)>::empty());
            assert(merge::string_entry_views(acc.placeholders@) =~= Seq::<EntryModel>::empty());
            assert(text::string_views(acc.authors@) =~= Seq::<Seq<char>>::empty());
            assert(acc@ == empty_acc(file@));
            accs.insert(pos, acc);
            assert(acc_views(accs@) =~= av.insert(pos as int, empty_acc(file@)));
            pos
        },
    }
}

/// Adds `c` to the count for `file`.
fn add_count_to(counts: &mut Vec<(String, usize)>, file: &String, c: usize, Ghost(bound): Ghost<nat>)
    requires
        forall|k: int| 0 <= k < old(counts)@.len() ==> (#[trigger] old(counts)@[k]).1 + c <= bound,
        c <= bound,
        bound <= usize::MAX,
    ensures
        count_views(final(counts)@) == add_count(count_views(old(counts)@), file@, c as nat),
        forall|k: int| 0 <= k < final(counts)@.len() ==> (#[trigger] final(counts)@[k]).1 <= bound,
{
    let ghost cv = count_views(counts@);
    if c == 0 {
        return;
    }
    let mut files: Vec<String> = Vec::new();
    let mut i: usize = 0;
    while i < counts.len()
        invariant
            i <= counts.len(),
            counts@ == old(counts)@,
            files@.len() == i,
            forall|k: int| 0 <= k < i ==> (#[trigger] files@[k])@ == counts@[k].0@,
        decreases counts.len() - i,
    {
        files.push(copy_string(&counts[i].0));
        i += 1;
    }
    assert(text::string_views(files@) =~= cv.map_values(|e: (Seq<char>, nat)| e.0));
    match paths::find_path_index(&files, file.as_str()) {
        Some(k) => {
            let (f, v) = counts.remove(k);
            assert(v + c <= bound);
            let ghost fv = f@;
            counts.insert(k, (f, v + c));
            assert(count_views(counts@) =~= cv.update(k as int, (fv, (v + c) as nat)));
        },
        None => {
            let pos = paths::path_position(&files, file.as_str());
            counts.insert(pos, (copy_string(file), c));
            assert(count_views(counts@) =~= cv.insert(pos as int, (file@, c as nat)));
        },
    }
}

// ---------------------------------------------------------------------------------------------
// Implementation: the whole stage.
// ---------------------------------------------------------------------------------------------

/// The number of bullets of an extraction.
pub open spec fn extraction_bullets(e: extract::ExtractionModel) -> nat {
    match e {
        extract::ExtractionModel::Sections(s) => bullet_count(s),
        _ => 0,
    }
}

/// A bound on how much one pull request adds to any count.
pub open spec fn pr_work(pr: PrModel, cfg: ConfigModel) -> nat {
    (extraction_bullets(extract::extract(pr.body)) + 1) * route_files(cfg, pr.changed_paths).len()
}

/// A bound on every count of a run: the sum of [`pr_work`].
pub open spec fn total_work(prs: Seq<PrModel>, cfg: ConfigModel) -> nat
    decreases prs.len(),
{
    if prs.len() == 0 {
        0
    } else {
        total_work(prs.drop_last(), cfg) + pr_work(prs.last(), cfg)
    }
}

/// [`total_work`] only grows along a list.
pub proof fn lemma_total_work_prefix(prs: Seq<PrModel>, cfg: ConfigModel, i: int)
    requires
        0 <= i <= prs.len(),
    ensures
        total_work(prs.take(i), cfg) <= total_work(prs, cfg),
    decreases prs.len() - i,
{
    if i < prs.len() {
        lemma_total_work_prefix(prs, cfg, i + 1);
        assert(prs.take(i + 1).drop_last() =~= prs.take(i));
    } else {
        assert(prs.take(i) =~= prs);
    }
}

/// [`bullet_count`] only grows along a list.
pub proof fn lemma_bullet_count_prefix(secs: Seq<SectionModel>, i: int)
    requires
        0 <= i <= secs.len(),
    ensures
        bullet_count(secs.take(i)) <= bullet_count(secs),
    decreases secs.len() - i,
{
    if i < secs.len() {
        lemma_bullet_count_prefix(secs, i + 1);
        assert(secs.take(i + 1).drop_last() =~= secs.take(i));
    } else {
        assert(secs.take(i) =~= secs);
    }
}

/// The model of the processing state.
pub open spec fn state_view(
    accs: Seq<FileAccumulator>,
    counts: Seq<(String, usize)>,
    placeholders: usize,
    none_skipped: usize,
) -> StateModel {
    StateModel {
        accs: acc_views(accs),
        counts: count_views(counts),
        placeholders: placeholders as nat,
        none_skipped: none_skipped as nat,
    }
}

// ---------------------------------------------------------------------------------------------
// Processing keeps every line of every changelog.
// ---------------------------------------------------------------------------------------------

/// A mention of a plain login is plain.
proof fn lemma_mention_plain(l: Seq<char>)
    requires
        text::plain_line(l),
    ensures
        text::plain_line(mention(l)),
{
    reveal_strlit("[@");
    reveal_strlit("][]");
    text::lemma_literal_plain("[@"@);
    text::lemma_literal_plain("][]"@);
    text::lemma_concat_plain("[@"@, l);
    text::lemma_concat_plain("[@"@ + l, "][]"@);
}

/// A list of mentions of plain logins is plain.
proof fn lemma_mention_list_plain(ls: Seq<Seq<char>>)
    requires
        text::plain_lines(ls),
    ensures
        text::plain_line(mention_list(ls)),
    decreases ls.len(),
{
    reveal_strlit(", ");
    text::lemma_literal_plain(", "@);
    if ls.len() == 0 {
        text::lemma_literal_plain(Seq::<char>::empty());
    } else {
        lemma_mention_plain(ls[0]);
        if ls.len() > 1 {
            assert forall|i: int| 0 <= i < ls.drop_first().len() implies text::plain_line(#[trigger] ls.drop_first()[i]) by {
                assert(ls.drop_first()[i] == ls[i + 1]);
            }
            lemma_mention_list_plain(ls.drop_first());
            text::lemma_concat_plain(mention(ls[0]), ", "@);
            text::lemma_concat_plain(mention(ls[0]) + ", "@, mention_list(ls.drop_first()));
        }
    }
}

/// The attribution of plain logins is plain.
proof fn lemma_attribution_plain(ls: Seq<Seq<char>>)
    requires
        text::plain_lines(ls),
    ensures
        text::plain_line(attribution(ls)),
{
    reveal_strlit(" and ");
    reveal_strlit(", and ");
    text::lemma_literal_plain(" and "@);
    text::lemma_literal_plain(", and "@);
    if ls.len() == 0 {
        text::lemma_literal_plain(Seq::<char>::empty());
    } else if ls.len() == 1 {
        lemma_mention_plain(ls[0]);
    } else if ls.len() == 2 {
        lemma_mention_plain(ls[0]);
        lemma_mention_plain(ls[1]);
        text::lemma_concat_plain(mention(ls[0]), " and "@);
        text::lemma_concat_plain(mention(ls[0]) + " and "@, mention(ls[1]));
    } else {
        assert forall|i: int| 0 <= i < ls.drop_last().len() implies text::plain_line(#[trigger] ls.drop_last()[i]) by {
            assert(ls.drop_last()[i] == ls[i]);
        }
        lemma_mention_list_plain(ls.drop_last());
        lemma_mention_plain(ls.last());
        text::lemma_concat_plain(mention_list(ls.drop_last()), ", and "@);
        text::lemma_concat_plain(mention_list(ls.drop_last()) + ", and "@, mention(ls.last()));
    }
}

/// The `([#N][] by ...)` ending of an entry is plain.
proof fn lemma_reference_plain(n: u64, attr: Seq<char>)
    requires
        text::plain_line(attr),
    ensures
        text::plain_line(" ([#"@ + numbers::decimal(n as nat) + "][] by "@ + attr + ")"@),
{
    reveal_strlit(" ([#");
    reveal_strlit("][] by ");
    reveal_strlit(")");
    let d = numbers::decimal(n as nat);
    numbers::lemma_decimal(n as nat);
    assert forall|k: int| 0 <= k < d.len() implies d[k] != '\n' by {
        assert(numbers::is_digit(d[k]));
    }
    assert(numbers::is_digit(d.last()));
    text::lemma_literal_plain(" ([#"@);
    text::lemma_literal_plain("][] by "@);
    text::lemma_literal_plain(")"@);
    text::lemma_literal_plain(d);
    text::lemma_concat_plain(" ([#"@, d);
    text::lemma_concat_plain(" ([#"@ + d, "][] by "@);
    text::lemma_concat_plain(" ([#"@ + d + "][] by "@, attr);
    text::lemma_concat_plain(" ([#"@ + d + "][] by "@ + attr, ")"@);
}

/// Entries of plain bullets and titles with plain attributions are plain.
proof fn lemma_entry_texts_plain(b: Seq<char>, n: u64, attr: Seq<char>)
    requires
        text::plain_line(b),
        text::plain_line(attr),
    ensures
        text::plain_line(entry_text(b, n, attr)),
        text::plain_line(placeholder_text(b, n, attr)),
{
    reveal_strlit("no-changelog: ");
    lemma_reference_plain(n, attr);
    let tail = " ([#"@ + numbers::decimal(n as nat) + "][] by "@ + attr + ")"@;
    text::lemma_concat_plain(b, tail);
    assert(entry_text(b, n, attr) =~= b + tail);
    text::lemma_literal_plain("no-changelog: "@);
    text::lemma_concat_plain("no-changelog: "@, b);
    text::lemma_concat_plain("no-changelog: "@ + b, tail);
    assert(placeholder_text(b, n, attr) =~= "no-changelog: "@ + b + tail);
}

/// The logins of a pull request whose author and co-authors are plain are plain.
proof fn lemma_logins_plain(pr: PrModel)
    requires
        text::plain_line(pr.author),
        text::plain_lines(pr.co_authors),
    ensures
        text::plain_lines(logins_of(pr)),
{
    lemma_logins_of(pr);
    let ls = logins_of(pr);
    assert forall|i: int| 0 <= i < ls.len() implies text::plain_line(#[trigger] ls[i]) by {
        assert(ls.contains(ls[i]));
        if ls[i] != pr.author {
            let k = choose|k: int| 0 <= k < pr.co_authors.len() && pr.co_authors[k] == ls[i];
        }
    }
}

/// Adding plain texts to a set of plain texts keeps it plain.
proof fn lemma_insert_strs_plain(s: Seq<Seq<char>>, xs: Seq<Seq<char>>)
    requires
        text::plain_lines(s),
        text::plain_lines(xs),
    ensures
        text::plain_lines(insert_strs(s, xs)),
    decreases xs.len(),
{
    if xs.len() > 0 {
        assert forall|i: int| 0 <= i < xs.drop_last().len() implies text::plain_line(#[trigger] xs.drop_last()[i]) by {
            assert(xs.drop_last()[i] == xs[i]);
        }
        lemma_insert_strs_plain(s, xs.drop_last());
        let p = insert_strs(s, xs.drop_last());
        let x = xs.last();
        if !p.contains(x) {
            let pos = str_pos(p, x, 0);
            lemma_str_pos(p, x, 0);
            let out = p.insert(pos, x);
            assert forall|i: int| 0 <= i < out.len() implies text::plain_line(#[trigger] out[i]) by {
                if i < pos {
                    assert(out[i] == p[i]);
                } else if i > pos {
                    assert(out[i] == p[i - 1]);
                }
            }
        }
    }
}

/// Bounds of [`str_pos`].
proof fn lemma_str_pos(s: Seq<Seq<char>>, x: Seq<char>, i: int)
    requires
        0 <= i <= s.len(),
    ensures
        i <= str_pos(s, x, i) <= s.len(),
    decreases s.len() - i,
{
    if i < s.len() && !text::lex_lt(x, s[i]) {
        lemma_str_pos(s, x, i + 1);
    }
}

/// Bounds of [`find_name`] and [`name_pos`].
proof fn lemma_name_bounds(secs: Seq<(Seq<char>, Seq<EntryModel>)>, name: Seq<char>, i: int)
    requires
        0 <= i <= secs.len(),
    ensures
        find_name(secs, name, i) matches Some(k) ==> i <= k < secs.len(),
        i <= name_pos(secs, name, i) <= secs.len(),
    decreases secs.len() - i,
{
    if i < secs.len() {
        lemma_name_bounds(secs, name, i + 1);
    }
}

/// Adding a plain entry under a plain name keeps the sections plain.
proof fn lemma_add_section_entry_plain(secs: Seq<(Seq<char>, Seq<EntryModel>)>, name: Seq<char>, e: EntryModel)
    requires
        merge::sections_plain(secs),
        text::plain_line(name),
        text::plain_line(e.1),
    ensures
        merge::sections_plain(add_section_entry(secs, name, e)),
{
    lemma_name_bounds(secs, name, 0);
    let out = add_section_entry(secs, name, e);
    match find_name(secs, name, 0) {
        Some(k) => {
            let es = secs[k].1.push(e);
            assert(text::plain_line(secs[k].0));
            assert(merge::entries_plain(secs[k].1));
            assert forall|i: int| 0 <= i < es.len() implies text::plain_line(#[trigger] es[i].1) by {
                if i < secs[k].1.len() {
                    assert(es[i] == secs[k].1[i]);
                }
            }
            assert forall|m: int| 0 <= m < out.len() implies text::plain_line(#[trigger] out[m].0) && merge::entries_plain(out[m].1) by {
                if m != k {
                    assert(out[m] == secs[m]);
                    assert(text::plain_line(secs[m].0));
                }
            }
        },
        None => {
            let pos = name_pos(secs, name, 0);
            assert(merge::entries_plain(seq![e]));
            assert forall|m: int| 0 <= m < out.len() implies text::plain_line(#[trigger] out[m].0) && merge::entries_plain(out[m].1) by {
                if m < pos {
                    assert(out[m] == secs[m]);
                    assert(text::plain_line(secs[m].0));
                } else if m > pos {
                    assert(out[m] == secs[m - 1]);
                    assert(text::plain_line(secs[m - 1].0));
                }
            }
        },
    }
}

/// Adding a section's plain bullets keeps the sections plain.
proof fn lemma_add_bullets_plain(
    secs: Seq<(Seq<char>, Seq<EntryModel>)>,
    name: Seq<char>,
    n: u64,
    bullets: Seq<Seq<char>>,
    attr: Seq<char>,
)
    requires
        merge::sections_plain(secs),
        text::plain_line(name),
        text::plain_lines(bullets),
        text::plain_line(attr),
    ensures
        merge::sections_plain(add_bullets(secs, name, n, bullets, attr)),
    decreases bullets.len(),
{
    if bullets.len() > 0 {
        assert forall|i: int| 0 <= i < bullets.drop_last().len() implies text::plain_line(#[trigger] bullets.drop_last()[i]) by {
            assert(bullets.drop_last()[i] == bullets[i]);
        }
        lemma_add_bullets_plain(secs, name, n, bullets.drop_last(), attr);
        assert(text::plain_line(bullets[bullets.len() - 1]));
        lemma_entry_texts_plain(bullets.last(), n, attr);
        lemma_add_section_entry_plain(
            add_bullets(secs, name, n, bullets.drop_last(), attr),
            name,
            (n, entry_text(bullets.last(), n, attr)),
        );
    }
}

/// Adding plain sections keeps the sections plain.
proof fn lemma_add_sections_plain(
    secs: Seq<(Seq<char>, Seq<EntryModel>)>,
    n: u64,
    sections: Seq<SectionModel>,
    attr: Seq<char>,
)
    requires
        merge::sections_plain(secs),
        extract::sections_plain(sections),
        text::plain_line(attr),
    ensures
        merge::sections_plain(add_sections(secs, n, sections, attr)),
    decreases sections.len(),
{
    if sections.len() > 0 {
        assert forall|k: int| 0 <= k < sections.drop_last().len() implies text::plain_line(#[trigger] sections.drop_last()[k].name)
            && text::plain_lines(sections.drop_last()[k].bullets) by {
            assert(sections.drop_last()[k] == sections[k]);
        }
        lemma_add_sections_plain(secs, n, sections.drop_last(), attr);
        let last = sections[sections.len() - 1];
        assert(text::plain_line(last.name) && text::plain_lines(last.bullets));
        lemma_add_bullets_plain(add_sections(secs, n, sections.drop_last(), attr), last.name, n, last.bullets, attr);
    }
}

/// Whether an accumulator holds only plain entries, section names and authors.
pub open spec fn acc_plain(a: AccModel) -> bool {
    merge::sections_plain(a.sections) && merge::entries_plain(a.placeholders) && text::plain_lines(a.authors)
}

/// Whether every accumulator is plain.
pub open spec fn accs_plain(accs: Seq<AccModel>) -> bool {
    forall|k: int| 0 <= k < accs.len() ==> acc_plain(#[trigger] accs[k])
}

/// Finding or adding a file's accumulator keeps the accumulators plain.
proof fn lemma_with_acc_plain(accs: Seq<AccModel>, file: Seq<char>)
    requires
        accs_plain(accs),
    ensures
        accs_plain(with_acc(accs, file).0),
        0 <= with_acc(accs, file).1 < with_acc(accs, file).0.len(),
{
    paths::lemma_find_path(acc_files(accs), file, 0);
    paths::lemma_path_pos(acc_files(accs), file, 0);
    match paths::find_path(acc_files(accs), file, 0) {
        Some(k) => {},
        None => {
            let pos = paths::path_pos(acc_files(accs), file, 0);
            let out = accs.insert(pos, empty_acc(file));
            assert(acc_plain(empty_acc(file)));
            assert forall|m: int| 0 <= m < out.len() implies acc_plain(#[trigger] out[m]) by {
                if m < pos {
                    assert(out[m] == accs[m]);
                } else if m > pos {
                    assert(out[m] == accs[m - 1]);
                }
            }
        },
    }
}

/// Adding a pull request's plain sections to its targets keeps the accumulators plain.
proof fn lemma_apply_sections_plain(
    st: StateModel,
    targets: Seq<Seq<char>>,
    n: u64,
    sections: Seq<SectionModel>,
    logins: Seq<Seq<char>>,
    attr: Seq<char>,
)
    requires
        accs_plain(st.accs),
        extract::sections_plain(sections),
        text::plain_lines(logins),
        text::plain_line(attr),
    ensures
        accs_plain(apply_sections(st, targets, n, sections, logins, attr).accs),
    decreases targets.len(),
{
    if targets.len() > 0 {
        lemma_apply_sections_plain(st, targets.drop_last(), n, sections, logins, attr);
        let prev = apply_sections(st, targets.drop_last(), n, sections, logins, attr);
        lemma_with_acc_plain(prev.accs, targets.last());
        let (accs, k) = with_acc(prev.accs, targets.last());
        let a = accs[k];
        lemma_add_sections_plain(a.sections, n, sections, attr);
        lemma_insert_strs_plain(a.authors, logins);
        let out = accs.update(k, acc_add_sections(a, n, sections, logins, attr));
        assert forall|m: int| 0 <= m < out.len() implies acc_plain(#[trigger] out[m]) by {
            if m != k {
                assert(out[m] == accs[m]);
            }
        }
    }
}

/// Adding a pull request's plain placeholder to its targets keeps the accumulators plain.
proof fn lemma_apply_placeholder_plain(
    st: StateModel,
    targets: Seq<Seq<char>>,
    n: u64,
    t: Seq<char>,
    logins: Seq<Seq<char>>,
)
    requires
        accs_plain(st.accs),
        text::plain_line(t),
        text::plain_lines(logins),
    ensures
        accs_plain(apply_placeholder(st, targets, n, t, logins).accs),
    decreases targets.len(),
{
    if targets.len() > 0 {
        lemma_apply_placeholder_plain(st, targets.drop_last(), n, t, logins);
        let prev = apply_placeholder(st, targets.drop_last(), n, t, logins);
        lemma_with_acc_plain(prev.accs, targets.last());
        let (accs, k) = with_acc(prev.accs, targets.last());
        let a = accs[k];
        lemma_insert_strs_plain(a.authors, logins);
        let ph = a.placeholders.push((n, t));
        assert(merge::entries_plain(a.placeholders));
        assert forall|i: int| 0 <= i < ph.len() implies text::plain_line(#[trigger] ph[i].1) by {
            if i < a.placeholders.len() {
                assert(ph[i] == a.placeholders[i]);
            }
        }
        let out = accs.update(k, acc_add_placeholder(a, n, t, logins));
        assert forall|m: int| 0 <= m < out.len() implies acc_plain(#[trigger] out[m]) by {
            if m != k {
                assert(out[m] == accs[m]);
            }
        }
    }
}

/// Whether a pull request's title, author and co-authors are plain lines.
pub open spec fn pr_plain(pr: PrModel) -> bool {
    text::plain_line(pr.title) && text::plain_line(pr.author) && text::plain_lines(pr.co_authors)
}

/// Gathering plain pull requests gives plain accumulators.
proof fn lemma_gather_plain(prs: Seq<PrModel>, cfg: ConfigModel)
    requires
        forall|i: int| 0 <= i < prs.len() ==> pr_plain(#[trigger] prs[i]),
    ensures
        accs_plain(gather(prs, cfg).accs),
    decreases prs.len(),
{
    if prs.len() > 0 {
        let p = prs.drop_last();
        assert forall|i: int| 0 <= i < p.len() implies pr_plain(#[trigger] p[i]) by {
            assert(p[i] == prs[i]);
        }
        lemma_gather_plain(p, cfg);
        let st = gather(p, cfg);
        let pr = prs.last();
        assert(pr_plain(prs[prs.len() - 1]));
        let targets = route_files(cfg, pr.changed_paths);
        let logins = logins_of(pr);
        let attr = attribution(logins);
        lemma_logins_plain(pr);
        lemma_attribution_plain(logins);
        extract::lemma_extract_plain(pr.body);
        match extract::extract(pr.body) {
            extract::ExtractionModel::NoneOptOut => {},
            extract::ExtractionModel::Sections(sections) => {
                lemma_apply_sections_plain(st, targets, pr.number, sections, logins, attr);
            },
            extract::ExtractionModel::Placeholder => {
                lemma_entry_texts_plain(pr.title, pr.number, attr);
                lemma_apply_placeholder_plain(st, targets, pr.number, placeholder_text(pr.title, pr.number, attr), logins);
            },
        }
    }
}

// ---------------------------------------------------------------------------------------------
// Every entry reaches the changelogs its pull request is routed to.
// ---------------------------------------------------------------------------------------------

/// Whether some section of `secs` holds `e`.
pub open spec fn sections_have(secs: Seq<(Seq<char>, Seq<EntryModel>)>, e: EntryModel) -> bool {
    exists|s: int| 0 <= s < secs.len() && (#[trigger] secs[s]).1.contains(e)
}

/// Whether an accumulator holds `e`, in a section or as a placeholder.
pub open spec fn acc_has(a: AccModel, e: EntryModel) -> bool {
    sections_have(a.sections, e) || a.placeholders.contains(e)
}

/// Whether the accumulator of a file equal to `file` holds `e`.
pub open spec fn accs_have(accs: Seq<AccModel>, file: Seq<char>, e: EntryModel) -> bool {
    exists|k: int| 0 <= k < accs.len() && paths::path_eq((#[trigger] accs[k]).file, file) && acc_has(accs[k], e)
}

/// Adding an entry keeps the entries there and adds it.
proof fn lemma_add_section_entry_has(secs: Seq<(Seq<char>, Seq<EntryModel>)>, name: Seq<char>, e: EntryModel)
    ensures
        sections_have(add_section_entry(secs, name, e), e),
        forall|x: EntryModel| sections_have(secs, x) ==> #[trigger] sections_have(add_section_entry(secs, name, e), x),
{
    lemma_name_bounds(secs, name, 0);
    let out = add_section_entry(secs, name, e);
    match find_name(secs, name, 0) {
        Some(k) => {
            let es = secs[k].1.push(e);
            assert(out[k].1 == es);
            assert(es[es.len() - 1] == e);
            assert(out[k].1.contains(e));
            assert forall|x: EntryModel| sections_have(secs, x) implies #[trigger] sections_have(out, x) by {
                let s = choose|s: int| 0 <= s < secs.len() && (#[trigger] secs[s]).1.contains(x);
                if s == k {
                    let i = choose|i: int| 0 <= i < secs[k].1.len() && secs[k].1[i] == x;
                    assert(es[i] == x);
                    assert(out[k].1.contains(x));
                } else {
                    assert(out[s] == secs[s]);
                }
            }
        },
        None => {
            let pos = name_pos(secs, name, 0);
            assert(out[pos].1 == seq![e]);
            assert(out[pos].1[0] == e);
            assert(out[pos].1.contains(e));
            assert forall|x: EntryModel| sections_have(secs, x) implies #[trigger] sections_have(out, x) by {
                let s = choose|s: int| 0 <= s < secs.len() && (#[trigger] secs[s]).1.contains(x);
                if s < pos {
                    assert(out[s] == secs[s]);
                } else {
                    assert(out[s + 1] == secs[s]);
                }
            }
        },
    }
}

/// Adding a section's bullets keeps the entries there and adds one for each bullet.
proof fn lemma_add_bullets_has(
    secs: Seq<(Seq<char>, Seq<EntryModel>)>,
    name: Seq<char>,
    n: u64,
    bullets: Seq<Seq<char>>,
    attr: Seq<char>,
)
    ensures
        forall|x: EntryModel| sections_have(secs, x) ==> #[trigger] sections_have(add_bullets(secs, name, n, bullets, attr), x),
        forall|i: int|
            0 <= i < bullets.len() ==> sections_have(
                add_bullets(secs, name, n, bullets, attr),
                (n, entry_text(#[trigger] bullets[i], n, attr)),
            ),
    decreases bullets.len(),
{
    if bullets.len() > 0 {
        let p = bullets.drop_last();
        lemma_add_bullets_has(secs, name, n, p, attr);
        let mid = add_bullets(secs, name, n, p, attr);
        let e = (n, entry_text(bullets.last(), n, attr));
        lemma_add_section_entry_has(mid, name, e);
        let out = add_bullets(secs, name, n, bullets, attr);
        assert forall|i: int| 0 <= i < bullets.len() implies sections_have(out, (n, entry_text(#[trigger] bullets[i], n, attr))) by {
            if i < bullets.len() - 1 {
                assert(p[i] == bullets[i]);
                assert(sections_have(mid, (n, entry_text(p[i], n, attr))));
            }
        }
    }
}

/// Adding sections keeps the entries there and adds one for each bullet of each section.
proof fn lemma_add_sections_has(secs: Seq<(Seq<char>, Seq<EntryModel>)>, n: u64, sections: Seq<SectionModel>, attr: Seq<char>)
    ensures
        forall|x: EntryModel| sections_have(secs, x) ==> #[trigger] sections_have(add_sections(secs, n, sections, attr), x),
        forall|s: int, i: int|
            0 <= s < sections.len() && 0 <= i < sections[s].bullets.len() ==> sections_have(
                add_sections(secs, n, sections, attr),
                (n, entry_text(#[trigger] sections[s].bullets[i], n, attr)),
            ),
    decreases sections.len(),
{
    if sections.len() > 0 {
        let p = sections.drop_last();
        lemma_add_sections_has(secs, n, p, attr);
        let mid = add_sections(secs, n, p, attr);
        let last = sections.last();
        lemma_add_bullets_has(mid, last.name, n, last.bullets, attr);
        let out = add_sections(secs, n, sections, attr);
        assert forall|s: int, i: int| 0 <= s < sections.len() && 0 <= i < sections[s].bullets.len() implies sections_have(
            out,
            (n, entry_text(#[trigger] sections[s].bullets[i], n, attr)),
        ) by {
            if s < sections.len() - 1 {
                assert(p[s] == sections[s]);
                assert(sections_have(mid, (n, entry_text(p[s].bullets[i], n, attr))));
            }
        }
    }
}

/// Finding or adding a file's accumulator keeps the others and returns one for that file.
proof fn lemma_with_acc_has(accs: Seq<AccModel>, file: Seq<char>)
    ensures
        ({
            let (out, k) = with_acc(accs, file);
            &&& 0 <= k < out.len()
            &&& paths::path_eq(out[k].file, file)
            &&& forall|f: Seq<char>, x: EntryModel| accs_have(accs, f, x) ==> #[trigger] accs_have(out, f, x)
            &&& forall|j: int| 0 <= j < out.len() && j != k ==> exists|i: int| 0 <= i < accs.len() && #[trigger] out[j] == accs[i]
            &&& forall|f: Seq<char>, x: EntryModel| accs_have(out, f, x) && !(paths::path_eq(out[k].file, f) && acc_has(out[k], x)) ==> accs_have(accs, f, x)
        }),
{
    paths::lemma_find_path(acc_files(accs), file, 0);
    paths::lemma_path_pos(acc_files(accs), file, 0);
    match paths::find_path(acc_files(accs), file, 0) {
        Some(k) => {
            assert(acc_files(accs)[k] == accs[k].file);
        },
        None => {
            let pos = paths::path_pos(acc_files(accs), file, 0);
            let out = accs.insert(pos, empty_acc(file));
            assert(out[pos].file == file);
            assert forall|f: Seq<char>, x: EntryModel| accs_have(accs, f, x) implies #[trigger] accs_have(out, f, x) by {
                let i = choose|i: int| 0 <= i < accs.len() && paths::path_eq((#[trigger] accs[i]).file, f) && acc_has(accs[i], x);
                if i < pos {
                    assert(out[i] == accs[i]);
                } else {
                    assert(out[i + 1] == accs[i]);
                }
            }
            assert forall|j: int| 0 <= j < out.len() && j != pos implies exists|i: int| 0 <= i < accs.len() && #[trigger] out[j] == accs[i] by {
                if j < pos {
                    assert(out[j] == accs[j]);
                } else {
                    assert(out[j] == accs[j - 1]);
                }
            }
            assert forall|f: Seq<char>, x: EntryModel| accs_have(out, f, x) && !(paths::path_eq(out[pos].file, f) && acc_has(out[pos], x)) implies accs_have(accs, f, x) by {
                let j = choose|j: int| 0 <= j < out.len() && paths::path_eq((#[trigger] out[j]).file, f) && acc_has(out[j], x);
                if j < pos {
                    assert(out[j] == accs[j]);
                } else if j > pos {
                    assert(out[j] == accs[j - 1]);
                }
            }
        },
    }
}

/// Updating one accumulator with one that keeps its file and entries keeps every entry.
proof fn lemma_update_acc_has(accs: Seq<AccModel>, k: int, a: AccModel)
    requires
        0 <= k < accs.len(),
        a.file == accs[k].file,
        forall|x: EntryModel| acc_has(accs[k], x) ==> #[trigger] acc_has(a, x),
    ensures
        forall|f: Seq<char>, x: EntryModel| accs_have(accs, f, x) ==> #[trigger] accs_have(accs.update(k, a), f, x),
{
    let out = accs.update(k, a);
    assert forall|f: Seq<char>, x: EntryModel| accs_have(accs, f, x) implies #[trigger] accs_have(out, f, x) by {
        let i = choose|i: int| 0 <= i < accs.len() && paths::path_eq((#[trigger] accs[i]).file, f) && acc_has(accs[i], x);
        if i == k {
            assert(acc_has(a, x));
            assert(out[k] == a);
        } else {
            assert(out[i] == accs[i]);
        }
    }
}

/// Adding a pull request's sections to its targets keeps every entry and adds each of its
/// bullets to each target.
proof fn lemma_apply_sections_has(
    st: StateModel,
    targets: Seq<Seq<char>>,
    n: u64,
    sections: Seq<SectionModel>,
    logins: Seq<Seq<char>>,
    attr: Seq<char>,
)
    ensures
        forall|f: Seq<char>, x: EntryModel|
            accs_have(st.accs, f, x) ==> #[trigger] accs_have(apply_sections(st, targets, n, sections, logins, attr).accs, f, x),
        forall|t: int, s: int, i: int|
            0 <= t < targets.len() && 0 <= s < sections.len() && 0 <= i < sections[s].bullets.len() ==> accs_have(
                apply_sections(st, targets, n, sections, logins, attr).accs,
                #[trigger] targets[t],
                (n, entry_text(#[trigger] sections[s].bullets[i], n, attr)),
            ),
    decreases targets.len(),
{
    if targets.len() > 0 {
        let p = targets.drop_last();
        lemma_apply_sections_has(st, p, n, sections, logins, attr);
        let prev = apply_sections(st, p, n, sections, logins, attr);
        lemma_with_acc_has(prev.accs, targets.last());
        let (accs, k) = with_acc(prev.accs, targets.last());
        let a = accs[k];
        let na = acc_add_sections(a, n, sections, logins, attr);
        lemma_add_sections_has(a.sections, n, sections, attr);
        assert forall|x: EntryModel| acc_has(a, x) implies #[trigger] acc_has(na, x) by {}
        lemma_update_acc_has(accs, k, na);
        let out = accs.update(k, na);
        assert(out == apply_sections(st, targets, n, sections, logins, attr).accs);
        assert forall|t: int, s: int, i: int|
            0 <= t < targets.len() && 0 <= s < sections.len() && 0 <= i < sections[s].bullets.len() implies accs_have(
                out,
                #[trigger] targets[t],
                (n, entry_text(#[trigger] sections[s].bullets[i], n, attr)),
            ) by {
            let e = (n, entry_text(sections[s].bullets[i], n, attr));
            if t < targets.len() - 1 {
                assert(p[t] == targets[t]);
                assert(accs_have(prev.accs, p[t], e));
            } else {
                assert(sections_have(na.sections, e));
                assert(acc_has(out[k], e));
                assert(paths::path_eq(out[k].file, targets[t]));
            }
        }
    }
}

/// Adding a pull request's placeholder to its targets keeps every entry and adds it to each
/// target.
proof fn lemma_apply_placeholder_has(
    st: StateModel,
    targets: Seq<Seq<char>>,
    n: u64,
    text: Seq<char>,
    logins: Seq<Seq<char>>,
)
    ensures
        forall|f: Seq<char>, x: EntryModel|
            accs_have(st.accs, f, x) ==> #[trigger] accs_have(apply_placeholder(st, targets, n, text, logins).accs, f, x),
        forall|t: int| 0 <= t < targets.len() ==> accs_have(apply_placeholder(st, targets, n, text, logins).accs, #[trigger] targets[t], (n, text)),
    decreases targets.len(),
{
    if targets.len() > 0 {
        let p = targets.drop_last();
        lemma_apply_placeholder_has(st, p, n, text, logins);
        let prev = apply_placeholder(st, p, n, text, logins);
        lemma_with_acc_has(prev.accs, targets.last());
        let (accs, k) = with_acc(prev.accs, targets.last());
        let a = accs[k];
        let na = acc_add_placeholder(a, n, text, logins);
        assert(na.placeholders[a.placeholders.len() as int] == (n, text));
        assert forall|x: EntryModel| acc_has(a, x) implies #[trigger] acc_has(na, x) by {
            if a.placeholders.contains(x) {
                let i = choose|i: int| 0 <= i < a.placeholders.len() && a.placeholders[i] == x;
                assert(na.placeholders[i] == x);
            }
        }
        lemma_update_acc_has(accs, k, na);
        let out = accs.update(k, na);
        assert forall|t: int| 0 <= t < targets.len() implies accs_have(out, #[trigger] targets[t], (n, text)) by {
            if t < targets.len() - 1 {
                assert(p[t] == targets[t]);
            } else {
                assert(acc_has(out[k], (n, text)));
                assert(paths::path_eq(out[k].file, targets[t]));
            }
        }
    }
}

/// The entry texts a pull request contributes to each of its target changelogs.
pub open spec fn pr_entries(pr: PrModel) -> Seq<Seq<char>> {
    let attr = attribution(logins_of(pr));
    match extract::extract(pr.body) {
        extract::ExtractionModel::Sections(sections) => section_entry_texts(sections, pr.number, attr),
        extract::ExtractionModel::Placeholder => seq![placeholder_text(pr.title, pr.number, attr)],
        extract::ExtractionModel::NoneOptOut => seq![],
    }
}

/// The entry texts of every bullet of every section, in order.
pub open spec fn section_entry_texts(sections: Seq<SectionModel>, n: u64, attr: Seq<char>) -> Seq<Seq<char>>
    decreases sections.len(),
{
    if sections.len() == 0 {
        seq![]
    } else {
        section_entry_texts(sections.drop_last(), n, attr) + sections.last().bullets.map_values(
            |b: Seq<char>| entry_text(b, n, attr),
        )
    }
}

/// The bullet an entry text of a pull request's sections comes from.
proof fn lemma_section_entry_text_at(sections: Seq<SectionModel>, n: u64, attr: Seq<char>, j: int) -> (r: (
    int,
    int,
))
    requires
        0 <= j < section_entry_texts(sections, n, attr).len(),
    ensures
        0 <= r.0 < sections.len(),
        0 <= r.1 < sections[r.0].bullets.len(),
        section_entry_texts(sections, n, attr)[j] == entry_text(sections[r.0].bullets[r.1], n, attr),
    decreases sections.len(),
{
    let p = sections.drop_last();
    let head = section_entry_texts(p, n, attr);
    let last = sections.last();
    let all = section_entry_texts(sections, n, attr);
    if j < head.len() {
        assert(all[j] == head[j]);
        let (s, i) = lemma_section_entry_text_at(p, n, attr, j);
        assert(p[s] == sections[s]);
        (s, i)
    } else {
        let i = j - head.len();
        assert(all[j] == entry_text(last.bullets[i], n, attr));
        ((sections.len() - 1) as int, i)
    }
}

/// After gathering, the accumulator of every file a pull request is routed to holds each of
/// its entries.
proof fn lemma_gather_has(prs: Seq<PrModel>, cfg: ConfigModel)
    ensures
        forall|p: int, t: int, j: int|
            0 <= p < prs.len() && 0 <= t < route_files(cfg, prs[p].changed_paths).len() && 0 <= j < pr_entries(
                prs[p],
            ).len() ==> accs_have(
                gather(prs, cfg).accs,
                #[trigger] route_files(cfg, prs[p].changed_paths)[t],
                (prs[p].number, #[trigger] pr_entries(prs[p])[j]),
            ),
    decreases prs.len(),
{
    if prs.len() > 0 {
        let q = prs.drop_last();
        lemma_gather_has(q, cfg);
        let st = gather(q, cfg);
        let pr = prs.last();
        let targets = route_files(cfg, pr.changed_paths);
        let logins = logins_of(pr);
        let attr = attribution(logins);
        let out = gather(prs, cfg).accs;
        // What was there stays.
        let keeps = forall|f: Seq<char>, x: EntryModel| accs_have(st.accs, f, x) ==> #[trigger] accs_have(out, f, x);
        match extract::extract(pr.body) {
            extract::ExtractionModel::NoneOptOut => {},
            extract::ExtractionModel::Sections(sections) => {
                lemma_apply_sections_has(st, targets, pr.number, sections, logins, attr);
            },
            extract::ExtractionModel::Placeholder => {
                lemma_apply_placeholder_has(st, targets, pr.number, placeholder_text(pr.title, pr.number, attr), logins);
            },
        }
        assert(keeps);
        assert forall|p: int, t: int, j: int|
            0 <= p < prs.len() && 0 <= t < route_files(cfg, prs[p].changed_paths).len() && 0 <= j < pr_entries(prs[p]).len()
            implies accs_have(
                out,
                #[trigger] route_files(cfg, prs[p].changed_paths)[t],
                (prs[p].number, #[trigger] pr_entries(prs[p])[j]),
            ) by {
            if p < prs.len() - 1 {
                assert(q[p] == prs[p]);
                assert(accs_have(st.accs, route_files(cfg, q[p].changed_paths)[t], (q[p].number, pr_entries(q[p])[j])));
            } else {
                assert(prs[p] == pr);
                match extract::extract(pr.body) {
                    extract::ExtractionModel::NoneOptOut => {},
                    extract::ExtractionModel::Sections(sections) => {
                        let (s, i) = lemma_section_entry_text_at(sections, pr.number, attr, j);
                        assert(accs_have(out, targets[t], (pr.number, entry_text(sections[s].bullets[i], pr.number, attr))));
                    },
                    extract::ExtractionModel::Placeholder => {
                        assert(pr_entries(pr)[j] == placeholder_text(pr.title, pr.number, attr));
                        assert(accs_have(out, targets[t], (pr.number, placeholder_text(pr.title, pr.number, attr))));
                    },
                }
            }
        }
    }
}

/// Whether every given changelog text ends with a newline and has plain lines.
pub open spec fn contents_plain(current: Seq<(Seq<char>, Seq<char>)>) -> bool {
    forall|k: int|
        0 <= k < current.len() ==> text::ends_with(#[trigger] current[k].1, "\n"@) && text::plain_lines(
            text::lines(current[k].1),
        )
}

/// What [`lookup`] finds is one of the given contents.
proof fn lemma_lookup(current: Seq<(Seq<char>, Seq<char>)>, file: Seq<char>)
    ensures
        lookup(current, file) matches Some(c) ==> exists|k: int| 0 <= k < current.len() && current[k].1 == c,
{
    let keys = current.map_values(|e: (Seq<char>, Seq<char>)| e.0);
    paths::lemma_find_path(keys, file, 0);
    if let Some(k) = paths::find_path(keys, file, 0) {
        assert(current[k].1 == lookup(current, file)->0);
    }
}

/// Every new content keeps every line of the content it was made from, in order.
proof fn lemma_finish_keeps_lines(accs: Seq<AccModel>, repo: Seq<char>, current: Seq<(Seq<char>, Seq<char>)>)
    requires
        accs_plain(accs),
        text::plain_line(repo),
        contents_plain(current),
    ensures
        finish(accs, repo, current) matches Ok(out) ==> forall|k: int|
            0 <= k < out.len() ==> ((#[trigger] lookup(current, out[k].0)) matches Some(c)
                && subseq::is_subseq(text::lines(c), text::lines(out[k].1))),
    decreases accs.len(),
{
    if accs.len() > 0 {
        let a = accs[0];
        let rest_accs = accs.drop_first();
        assert forall|k: int| 0 <= k < rest_accs.len() implies acc_plain(#[trigger] rest_accs[k]) by {
            assert(rest_accs[k] == accs[k + 1]);
        }
        lemma_finish_keeps_lines(rest_accs, repo, current);
        if let Ok(out) = finish(accs, repo, current) {
            let content = lookup(current, a.file)->0;
            lemma_lookup(current, a.file);
            let ck = choose|k: int| 0 <= k < current.len() && current[k].1 == content;
            assert(text::ends_with(current[ck].1, "\n"@));
            assert(acc_plain(accs[0]));
            let merged = merge::merge(content, a.sections, a.placeholders)->0;
            merge::lemma_merge_text_lines(content, a.sections, a.placeholders);
            merge::lemma_merge_keeps_text_lines(content, a.sections, a.placeholders);
            refdefs::lemma_update_keeps_text_lines(merged, repo, a.prs, a.authors);
            let updated = refdefs::update_defs(merged, repo, a.prs, a.authors);
            subseq::lemma_subseq_trans(text::lines(content), text::lines(merged), text::lines(updated));
            let rest = finish(rest_accs, repo, current)->Ok_0;
            assert(out == seq![(a.file, updated)] + rest);
            assert forall|k: int| 0 <= k < out.len() implies ((#[trigger] lookup(current, out[k].0)) matches Some(c)
                && subseq::is_subseq(text::lines(c), text::lines(out[k].1))) by {
                if k > 0 {
                    assert(out[k] == rest[k - 1]);
                }
            }
        }
    }
}

/// Every entry of an accumulator is a bullet line of the file's new content.
proof fn lemma_finish_has(accs: Seq<AccModel>, repo: Seq<char>, current: Seq<(Seq<char>, Seq<char>)>)
    requires
        accs_plain(accs),
        text::plain_line(repo),
        contents_plain(current),
    ensures
        finish(accs, repo, current) matches Ok(out) ==> {
            &&& out.len() == accs.len()
            &&& forall|k: int| 0 <= k < out.len() ==> (#[trigger] out[k]).0 == accs[k].file
            &&& forall|k: int, x: EntryModel|
                0 <= k < out.len() && acc_has(accs[k], x) ==> text::lines((#[trigger] out[k]).1).contains(
                    merge::entry_line(#[trigger] x.1),
                )
        },
    decreases accs.len(),
{
    if accs.len() > 0 {
        let a = accs[0];
        let rest_accs = accs.drop_first();
        assert forall|k: int| 0 <= k < rest_accs.len() implies acc_plain(#[trigger] rest_accs[k]) by {
            assert(rest_accs[k] == accs[k + 1]);
        }
        lemma_finish_has(rest_accs, repo, current);
        if let Ok(out) = finish(accs, repo, current) {
            let content = lookup(current, a.file)->0;
            lemma_lookup(current, a.file);
            let ck = choose|k: int| 0 <= k < current.len() && current[k].1 == content;
            assert(text::ends_with(current[ck].1, "\n"@));
            assert(acc_plain(accs[0]));
            let merged = merge::merge(content, a.sections, a.placeholders)->0;
            merge::lemma_merge_text_lines(content, a.sections, a.placeholders);
            merge::lemma_merge_adds_text_entries(content, a.sections, a.placeholders);
            refdefs::lemma_update_keeps_text_lines(merged, repo, a.prs, a.authors);
            let updated = refdefs::update_defs(merged, repo, a.prs, a.authors);
            let rest = finish(rest_accs, repo, current)->Ok_0;
            assert(out == seq![(a.file, updated)] + rest);
            assert forall|k: int| 0 <= k < out.len() implies (#[trigger] out[k]).0 == accs[k].file by {
                if k > 0 {
                    assert(out[k] == rest[k - 1]);
                    assert(rest_accs[k - 1] == accs[k]);
                }
            }
            assert forall|k: int, x: EntryModel| 0 <= k < out.len() && acc_has(accs[k], x) implies text::lines((#[trigger] out[k]).1).contains(
                merge::entry_line(#[trigger] x.1),
            ) by {
                if k > 0 {
                    assert(out[k] == rest[k - 1]);
                    assert(rest_accs[k - 1] == accs[k]);
                } else {
                    let line = merge::entry_line(x.1);
                    if sections_have(a.sections, x) {
                        let s = choose|s: int| 0 <= s < a.sections.len() && (#[trigger] a.sections[s]).1.contains(x);
                        let i = choose|i: int| 0 <= i < a.sections[s].1.len() && a.sections[s].1[i] == x;
                        assert(text::lines(merged).contains(merge::entry_line(a.sections[s].1[i].1)));
                    } else {
                        let i = choose|i: int| 0 <= i < a.placeholders.len() && a.placeholders[i] == x;
                        assert(text::lines(merged).contains(merge::entry_line(a.placeholders[i].1)));
                    }
                    subseq::lemma_subseq_contains(text::lines(merged), text::lines(updated), line);
                }
            }
        }
    }
}

/// Every entry of every pull request reaches each changelog the pull request is routed to:
/// the new content of a file equal to each routed file holds a bullet `- {entry}` for it. This
/// holds for current contents that end with a newline and have plain lines, a repository name
/// and pull-request titles, authors and co-authors that are plain lines.
pub proof fn lemma_process_delivers_entries(
    prs: Seq<PrModel>,
    cfg: ConfigModel,
    current: Seq<(Seq<char>, Seq<char>)>,
)
    requires
        forall|i: int| 0 <= i < prs.len() ==> pr_plain(#[trigger] prs[i]),
        text::plain_line(cfg.repo),
        contents_plain(current),
    ensures
        match process_spec(prs, cfg, current) {
            Ok((updated, _)) => forall|p: int, file: Seq<char>, e: Seq<char>|
                0 <= p < prs.len() && #[trigger] route_files(cfg, prs[p].changed_paths).contains(file)
                    && #[trigger] pr_entries(prs[p]).contains(e) ==> exists|k: int|
                    0 <= k < updated.len() && paths::path_eq((#[trigger] updated[k]).0, file) && text::lines(
                        updated[k].1,
                    ).contains(merge::entry_line(e)),
            Err(_) => true,
        },
{
    let st = gather(prs, cfg);
    lemma_gather_plain(prs, cfg);
    lemma_gather_has(prs, cfg);
    lemma_finish_has(st.accs, cfg.repo, current);
    if let Ok((updated, _)) = process_spec(prs, cfg, current) {
        assert(finish(st.accs, cfg.repo, current) == Ok::<Seq<(Seq<char>, Seq<char>)>, ErrorModel>(updated));
        assert forall|p: int, file: Seq<char>, e: Seq<char>|
            0 <= p < prs.len() && #[trigger] route_files(cfg, prs[p].changed_paths).contains(file)
                && #[trigger] pr_entries(prs[p]).contains(e) implies exists|k: int|
                0 <= k < updated.len() && paths::path_eq((#[trigger] updated[k]).0, file) && text::lines(
                    updated[k].1,
                ).contains(merge::entry_line(e)) by {
            let rf = route_files(cfg, prs[p].changed_paths);
            let t = choose|t: int| 0 <= t < rf.len() && rf[t] == file;
            let j = choose|j: int| 0 <= j < pr_entries(prs[p]).len() && pr_entries(prs[p])[j] == e;
            assert(accs_have(st.accs, rf[t], (prs[p].number, pr_entries(prs[p])[j])));
            let x = (prs[p].number, e);
            let k = choose|k: int| 0 <= k < st.accs.len() && paths::path_eq((#[trigger] st.accs[k]).file, file) && acc_has(st.accs[k], x);
            assert(updated[k].0 == st.accs[k].file);
            assert(text::lines(updated[k].1).contains(merge::entry_line(x.1)));
        }
    }
}

/// Processing never changes or removes a line of a changelog: each new content keeps every
/// line of the file's current content, in order. This holds for current contents that end
/// with a newline and have plain lines, a repository name and pull-request titles, authors and
/// co-authors that are plain lines.
pub proof fn lemma_process_keeps_lines(
    prs: Seq<PrModel>,
    cfg: ConfigModel,
    current: Seq<(Seq<char>, Seq<char>)>,
)
    requires
        forall|i: int| 0 <= i < prs.len() ==> pr_plain(#[trigger] prs[i]),
        text::plain_line(cfg.repo),
        contents_plain(current),
    ensures
        process_spec(prs, cfg, current) matches Ok((updated, _)) ==> forall|k: int|
            0 <= k < updated.len() ==> ((#[trigger] lookup(current, updated[k].0)) matches Some(c)
                && subseq::is_subseq(text::lines(c), text::lines(updated[k].1))),
{
    lemma_gather_plain(prs, cfg);
    lemma_finish_keeps_lines(gather(prs, cfg).accs, cfg.repo, current);
}

/// The processing result: the new contents and the summary, or the first error.
pub open spec fn process_spec(
    prs: Seq<PrModel>,
    cfg: ConfigModel,
    current: Seq<(Seq<char>, Seq<char>)>,
) -> Result<(Seq<(Seq<char>, Seq<char>)>, StateModel), ErrorModel> {
    let st = gather(prs, cfg);
    match finish(st.accs, cfg.repo, current) {
        Ok(updated) => Ok((updated, st)),
        Err(e) => Err(e),
    }
}

/// The number of bullets of an extraction, or `None` when it exceeds `usize::MAX`.
fn extraction_bullet_count(e: &Extraction) -> (r: Option<usize>)
    ensures
        match r {
            Some(n) => n == extraction_bullets(e@),
            None => extraction_bullets(e@) > usize::MAX,
        },
{
    match e {
        Extraction::Sections(secs) => {
            let ghost sv = extract::section_views(secs@);
            let mut total: usize = 0;
            let mut k: usize = 0;
            while k < secs.len()
                invariant
                    k <= secs.len(),
                    sv == extract::section_views(secs@),
                    extraction_bullets(e@) == bullet_count(sv),
                    total == bullet_count(sv.take(k as int)),
                decreases secs.len() - k,
            {
                assert(sv.take(k + 1).drop_last() =~= sv.take(k as int));
                assert(sv[k as int].bullets.len() == secs@[k as int].bullets.len());
                match total.checked_add(secs[k].bullets.len()) {
                    Some(t) => {
                        total = t;
                    },
                    None => {
                        proof {
                            lemma_bullet_count_prefix(sv, k + 1);
                            assert(sv.take(sv.len() as int) =~= sv);
                        }
                        return None;
                    },
                }
                k += 1;
            }
            assert(sv.take(secs.len() as int) =~= sv);
            Some(total)
        },
        _ => Some(0),
    }
}

/// Whether every count of a run fits in a `usize` (what [`process`] requires).
#[verifier::spinoff_prover]
pub fn work_fits(collected: &Collected, config: &Config) -> (r: bool)
    ensures
        r == (total_work(pr_views(collected.prs@), config@) <= usize::MAX),
{
    let ghost pv = pr_views(collected.prs@);
    let mut total: usize = 0;
    let mut i: usize = 0;
    assert(pv.take(0) =~= Seq::<PrModel>::empty());
    while i < collected.prs.len()
        invariant
            i <= collected.prs.len(),
            pv == pr_views(collected.prs@),
            total == total_work(pv.take(i as int), config@),
        decreases collected.prs.len() - i,
    {
        let pr = &collected.prs[i];
        assert(pv[i as int] == pr@);
        assert(pv.take(i + 1).drop_last() =~= pv.take(i as int));
        assert(pv.take(i + 1).last() == pv[i as int]);
        let body = match &pr.body {
            Some(b) => Some(b.as_str()),
            None => None,
        };
        let ext = extract_changelog(body);
        let files = route(config, &pr.changed_paths).len();
        proof {
            lemma_route_files(config@, pr@.changed_paths);
            lemma_total_work_prefix(pv, config@, i + 1);
        }
        let bullets = match extraction_bullet_count(&ext) {
            Some(b) => b,
            None => {
                assert(pr_work(pv[i as int], config@) >= extraction_bullets(ext@) + 1) by (nonlinear_arith)
                    requires
                        pr_work(pv[i as int], config@) == (extraction_bullets(ext@) + 1) * files,
                        files >= 1,
                ;
                return false;
            },
        };
        let b1 = match bullets.checked_add(1) {
            Some(b) => b,
            None => {
                assert(pr_work(pv[i as int], config@) >= extraction_bullets(ext@) + 1) by (nonlinear_arith)
                    requires
                        pr_work(pv[i as int], config@) == (extraction_bullets(ext@) + 1) * files,
                        files >= 1,
                ;
                return false;
            },
        };
        let w = match b1.checked_mul(files) {
            Some(w) => w,
            None => {
                return false;
            },
        };
        total = match total.checked_add(w) {
            Some(t) => t,
            None => {
                return false;
            },
        };
        i += 1;
    }
    assert(pv.take(collected.prs.len() as int) =~= pv);
    true
}

/// The pure processing stage: extracts, routes, and merges.
///
/// Takes the collected pull-request data plus the current contents of every target changelog
/// file (keyed by repo-root-relative path) and returns the new contents of every file entries
/// route to, sorted by path, together with the run statistics. It fails when a file that
/// entries route to has no given content or no `## [Unreleased]` heading.
#[verifier::spinoff_prover]
pub fn process(collected: &Collected, config: &Config, current: &Vec<(String, String)>) -> (r: Result<
    ProcessOutput,
    ChangelogError,
>)
    requires
        total_work(pr_views(collected.prs@), config@) <= usize::MAX,
    ensures
        match process_spec(pr_views(collected.prs@), config@, pair_views(current@)) {
            Ok((updated, st)) => r matches Ok(out) && pair_views(out.updated@) == updated
                && count_views(out.summary.entries_added@) == st.counts
                && out.summary.placeholders == st.placeholders
                && out.summary.none_skipped == st.none_skipped,
            Err(e) => r matches Err(x) && x@ == e,
        },
{
    let ghost prs = pr_views(collected.prs@);
    let ghost cfg = config@;
    let mut accs: Vec<FileAccumulator> = Vec::new();
    let mut counts: Vec<(String, usize)> = Vec::new();
    let mut placeholders: usize = 0;
    let mut none_skipped: usize = 0;
    let mut i: usize = 0;
    assert(prs.take(0) =~= Seq::<PrModel>::empty());
    assert(acc_views(accs@) =~= Seq::<AccModel>::empty());
    assert(count_views(counts@) =~= Seq::<(Seq<char>, nat)>::empty());
    while i < collected.prs.len()
        invariant
            i <= collected.prs.len(),
            prs == pr_views(collected.prs@),
            cfg == config@,
            state_view(accs@, counts@, placeholders, none_skipped) == gather(prs.take(i as int), cfg),
            total_work(prs, cfg) <= usize::MAX,
            none_skipped <= i,
            placeholders <= total_work(prs.take(i as int), cfg),
            forall|k: int| 0 <= k < counts@.len() ==> (#[trigger] counts@[k]).1 <= total_work(
                prs.take(i as int),
                cfg,
            ),
        decreases collected.prs.len() - i,
    {
        let pr = &collected.prs[i];
        let ghost pm = pr@;
        let ghost w_prev = total_work(prs.take(i as int), cfg);
        let ghost st0 = state_view(accs@, counts@, placeholders, none_skipped);
        proof {
            assert(prs.take(i + 1).drop_last() =~= prs.take(i as int));
            assert(prs.take(i + 1).last() == pm);
            lemma_total_work_prefix(prs, cfg, i + 1);
        }
        let targets = route(config, &pr.changed_paths);
        let body: Option<&str> = match &pr.body {
            Some(b) => Some(b.as_str()),
            None => None,
        };
        let ext = extract_changelog(body);
        assert(ext@ == extract::extract(pm.body));
        let ghost tv = text::string_views(targets@);
        assert(tv == route_files(cfg, pm.changed_paths));
        assert(targets.len() >= 1);
        match ext {
            Extraction::NoneOptOut => {
                none_skipped = none_skipped + 1;
            },
            Extraction::Sections(sections) => {
                let ghost sm = extract::section_views(sections@);
                let logins = attribution_logins(pr);
                let attr = format_attribution(&logins);
                // The number of bullets, below this pull request's work bound.
                let mut b: usize = 0;
                let mut s: usize = 0;
                assert(sm.take(0) =~= Seq::<SectionModel>::empty());
                proof {
                    assert(pr_work(pm, cfg) == (bullet_count(sm) + 1) * tv.len());
                    assert((bullet_count(sm) + 1) * tv.len() >= bullet_count(sm) + 1) by (nonlinear_arith)
                        requires
                            tv.len() >= 1,
                    ;
                }
                while s < sections.len()
                    invariant
                        s <= sections.len(),
                        sm == extract::section_views(sections@),
                        b == bullet_count(sm.take(s as int)),
                        bullet_count(sm) + 1 <= usize::MAX,
                    decreases sections.len() - s,
                {
                    proof {
                        assert(sm.take(s + 1).drop_last() =~= sm.take(s as int));
                        assert(sm.take(s + 1).last() == sections@[s as int]@);
                        lemma_bullet_count_prefix(sm, s + 1);
                    }
                    b = b + sections[s].bullets.len();
                    s += 1;
                }
                assert(sm.take(sections.len() as int) =~= sm);
                let mut j: usize = 0;
                assert(tv.take(0) =~= Seq::<Seq<char>>::empty());
                while j < targets.len()
                    invariant
                        j <= targets.len(),
                        tv == text::string_views(targets@),
                        sm == extract::section_views(sections@),
                        b == bullet_count(sm),
                        state_view(accs@, counts@, placeholders, none_skipped) == apply_sections(
                            st0,
                            tv.take(j as int),
                            pm.number,
                            sm,
                            text::string_views(logins@),
                            attr@,
                        ),
                        pm.number == pr.number,
                        w_prev + (b + 1) * tv.len() <= usize::MAX,
                        placeholders <= w_prev,
                        forall|k: int|
                            0 <= k < counts@.len() ==> (#[trigger] counts@[k]).1 <= w_prev + (b
                                + 1) * j,
                    decreases targets.len() - j,
                {
                    proof {
                        assert(tv.take(j + 1).drop_last() =~= tv.take(j as int));
                        assert(tv.take(j + 1).last() == targets@[j as int]@);
                        assert((b + 1) * (j + 1) == (b + 1) * j + b + 1) by (nonlinear_arith);
                        assert((b + 1) * (j + 1) <= (b + 1) * tv.len()) by (nonlinear_arith)
                            requires
                                j + 1 <= tv.len(),
                        ;
                    }
                    let ghost before = state_view(accs@, counts@, placeholders, none_skipped);
                    let idx = acc_index(&mut accs, &targets[j]);
                    let ghost a2 = acc_views(accs@);
                    let mut acc = accs.remove(idx);
                    assert(acc@ == a2[idx as int]);
                    add_pr_sections(&mut acc.sections, pr.number, &sections, &attr);
                    insert_u64_set(&mut acc.pr_numbers, pr.number);
                    insert_str_all(&mut acc.authors, &logins);
                    let ghost new_acc = acc@;
                    accs.insert(idx, acc);
                    assert(acc_views(accs@) =~= a2.update(idx as int, new_acc));
                    add_count_to(&mut counts, &targets[j], b, Ghost((w_prev + (b + 1) * (j + 1)) as nat));
                    j += 1;
                }
                assert(tv.take(targets.len() as int) =~= tv);
            },
            Extraction::Placeholder => {
                let logins = attribution_logins(pr);
                let attr = format_attribution(&logins);
                let t = placeholder_text_of(&pr.title, pr.number, &attr);
                proof {
                    assert(pr_work(pm, cfg) == (0 + 1) * tv.len());
                }
                let mut j: usize = 0;
                assert(tv.take(0) =~= Seq::<Seq<char>>::empty());
                while j < targets.len()
                    invariant
                        j <= targets.len(),
                        tv == text::string_views(targets@),
                        state_view(accs@, counts@, placeholders, none_skipped) == apply_placeholder(
                            st0,
                            tv.take(j as int),
                            pm.number,
                            t@,
                            text::string_views(logins@),
                        ),
                        pm.number == pr.number,
                        w_prev + tv.len() <= usize::MAX,
                        placeholders <= w_prev + j,
                        forall|k: int|
                            0 <= k < counts@.len() ==> (#[trigger] counts@[k]).1 <= w_prev + j,
                    decreases targets.len() - j,
                {
                    proof {
                        assert(tv.take(j + 1).drop_last() =~= tv.take(j as int));
                        assert(tv.take(j + 1).last() == targets@[j as int]@);
                    }
                    let idx = acc_index(&mut accs, &targets[j]);
                    let ghost a2 = acc_views(accs@);
                    let mut acc = accs.remove(idx);
                    assert(acc@ == a2[idx as int]);
                    let ghost before_ph = merge::string_entry_views(acc.placeholders@);
                    acc.placeholders.push((pr.number, copy_string(&t)));
                    assert(merge::string_entry_views(acc.placeholders@) =~= before_ph.push(
                        (pr.number, t@),
                    ));
                    insert_u64_set(&mut acc.pr_numbers, pr.number);
                    insert_str_all(&mut acc.authors, &logins);
                    let ghost new_acc = acc@;
                    accs.insert(idx, acc);
                    assert(acc_views(accs@) =~= a2.update(idx as int, new_acc));
                    add_count_to(&mut counts, &targets[j], 1, Ghost((w_prev + j + 1) as nat));
                    placeholders = placeholders + 1;
                    j += 1;
                }
                assert(tv.take(targets.len() as int) =~= tv);
            },
        }
        i += 1;
    }
    assert(prs.take(collected.prs.len() as int) =~= prs);
    let updated = finish_files(&accs, &config.repo, current)?;
    Ok(ProcessOutput { updated, summary: Summary { entries_added: counts, placeholders, none_skipped } })
}

/// The content given for `file`, looked up by path.
pub(crate) fn lookup_content<'a>(current: &'a Vec<(String, String)>, file: &str) -> (r: Option<&'a String>)
    ensures
        match r {
            Some(c) => lookup(pair_views(current@), file@) == Some(c@),
            None => lookup(pair_views(current@), file@) is None,
        },
{
    let ghost cv = pair_views(current@);
    let ghost keys = cv.map_values(|e: (Seq<char>, Seq<char>)| e.0);
    let mut i: usize = 0;
    while i < current.len()
        invariant
            i <= current.len(),
            cv == pair_views(current@),
            keys == cv.map_values(|e: (Seq<char>, Seq<char>)| e.0),
            paths::find_path(keys, file@, 0) == paths::find_path(keys, file@, i as int),
        decreases current.len() - i,
    {
        assert(keys[i as int] == current@[i as int].0@);
        if paths_equal(current[i].0.as_str(), file) {
            return Some(&current[i].1);
        }
        i += 1;
    }
    None
}

/// Merges each accumulated file's entries into its current content.
fn finish_files(accs: &Vec<FileAccumulator>, repo: &String, current: &Vec<(String, String)>) -> (r: Result<
    Vec<(String, String)>,
    ChangelogError,
>)
    ensures
        match finish(acc_views(accs@), repo@, pair_views(current@)) {
            Ok(updated) => r matches Ok(v) && pair_views(v@) == updated,
            Err(e) => r matches Err(x) && x@ == e,
        },
{
    let ghost av = acc_views(accs@);
    let mut out: Vec<(String, String)> = Vec::new();
    let mut i: usize = 0;
    assert(av.skip(0) =~= av);
    while i < accs.len()
        invariant
            i <= accs.len(),
            av == acc_views(accs@),
            finish(av, repo@, pair_views(current@)) == match finish(
                av.skip(i as int),
                repo@,
                pair_views(current@),
            ) {
                Ok(rest) => Ok(pair_views(out@) + rest),
                Err(e) => Err(e),
            },
        decreases accs.len() - i,
    {
        let acc = &accs[i];
        assert(av.skip(i as int)[0] == acc@);
        assert(av.skip(i as int).drop_first() =~= av.skip(i + 1));
        let content = match lookup_content(current, acc.file.as_str()) {
            Some(c) => c,
            None => {
                return Err(ChangelogError::MissingContent(copy_string(&acc.file)));
            },
        };
        let merged = merge_into_unreleased(content.as_str(), &acc.sections, &acc.placeholders)?;
        let with_refs = update_reference_defs(merged.as_str(), repo.as_str(), &acc.pr_numbers, &acc.authors)?;
        let ghost before = pair_views(out@);
        out.push((copy_string(&acc.file), with_refs));
        proof {
            let item = (acc@.file, refdefs::update_defs(merged@, repo@, acc@.prs, acc@.authors));
            assert(pair_views(out@) =~= before + seq![item]);
            match finish(av.skip(i + 1), repo@, pair_views(current@)) {
                Ok(rest) => {
                    assert(before + (seq![item] + rest) =~= pair_views(out@) + rest);
                },
                Err(e) => {},
            }
        }
        i += 1;
    }
    assert(av.skip(accs.len() as int) =~= Seq::<AccModel>::empty());
    assert(pair_views(out@) + Seq::<(Seq<char>, Seq<char>)>::empty() =~= pair_views(out@));
    Ok(out)
}

} // verus!
