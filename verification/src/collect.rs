//! The decisions of the collection stage: which commit to start from, which commits are merged
//! pull requests, and how `git` output is read. Running `git` and `gh` is left to the caller.

use crate::numbers;
use crate::text::{
    self, append_chars, chars_of, has_suffix, lines_of, rfind_chars, string_of, subslice,
    trim_chars, without_trailing_white,
};
use vstd::prelude::*;

verus! {

/// Why a run cannot start.
#[derive(Debug, Clone, PartialEq, Eq)]
pub enum CollectError {
    /// The default changelog has no `git-changelog:last-commit` marker and no `--since` was
    /// given.
    NoStartingPoint,
    /// `--since` was given although the default changelog already records a
    /// `git-changelog:last-commit` marker: it is only valid on the first run.
    SinceWithMarker,
}

// ---------------------------------------------------------------------------------------------
// Specification.
// ---------------------------------------------------------------------------------------------

/// The pull-request number of a squash-merge commit subject's trailing `(#N)`: after trailing
/// whitespace and the final `)`, the text after the last `(#` must be one or more ASCII digits
/// that fit in a `u64`.
pub open spec fn trailing_pr_number(subject: Seq<char>) -> Option<u64> {
    let t = text::trim_end(subject);
    if !text::ends_with(t, ")"@) {
        None
    } else {
        let s = t.take(t.len() - 1);
        match text::rfind(s, "(#"@) {
            None => None,
            Some(idx) => {
                let d = s.skip(idx + 2);
                if d.len() == 0 || !numbers::all_digits(d) {
                    None
                } else {
                    numbers::parse_u64(d)
                }
            },
        }
    }
}

/// The trimmed, non-empty lines of `git` output, in order.
pub open spec fn nonempty_lines(ls: Seq<Seq<char>>) -> Seq<Seq<char>>
    decreases ls.len(),
{
    if ls.len() == 0 {
        seq![]
    } else {
        nonempty_lines(ls.drop_last()) + if text::trim(ls.last()).len() == 0 {
            Seq::<Seq<char>>::empty()
        } else {
            seq![text::trim(ls.last())]
        }
    }
}

/// The numbers already taken in a list of selected pull requests.
pub open spec fn taken(sel: Seq<(u64, Seq<char>)>, n: u64) -> bool {
    exists|k: int| 0 <= k < sel.len() && (#[trigger] sel[k]).0 == n
}

/// The merged pull requests of a list of `(commit, subject)` pairs: each number with the first
/// commit whose (trimmed) subject carries it, in commit order.
pub open spec fn select_prs(commits: Seq<(Seq<char>, Seq<char>)>) -> Seq<(u64, Seq<char>)>
    decreases commits.len(),
{
    if commits.len() == 0 {
        seq![]
    } else {
        let prev = select_prs(commits.drop_last());
        let c = commits.last();
        match trailing_pr_number(text::trim(c.1)) {
            Some(n) => if taken(prev, n) {
                prev
            } else {
                prev.push((n, c.0))
            },
            None => prev,
        }
    }
}

/// Each pull request is selected once.
pub proof fn lemma_select_prs_distinct(commits: Seq<(Seq<char>, Seq<char>)>)
    ensures
        forall|i: int, j: int|
            0 <= i < j < select_prs(commits).len() ==> #[trigger] select_prs(commits)[i].0
                != #[trigger] select_prs(commits)[j].0,
    decreases commits.len(),
{
    if commits.len() > 0 {
        lemma_select_prs_distinct(commits.drop_last());
        let prev = select_prs(commits.drop_last());
        let sel = select_prs(commits);
        assert forall|i: int, j: int| 0 <= i < j < sel.len() implies #[trigger] sel[i].0 != #[trigger] sel[j].0 by {
            if j < prev.len() {
                assert(sel[i] == prev[i] && sel[j] == prev[j]);
            } else if sel.len() > prev.len() {
                assert(sel[i] == prev[i]);
                assert(!taken(prev, sel[j].0));
                if sel[i].0 == sel[j].0 {
                    assert(taken(prev, sel[j].0));
                }
            }
        }
    }
}

// ---------------------------------------------------------------------------------------------
// Reading back a rendered number.
// ---------------------------------------------------------------------------------------------

/// A commit subject ending in ` (#N)` carries `N`, whatever the title before it.
pub proof fn lemma_trailing_pr_number(title: Seq<char>, n: u64)
    ensures
        trailing_pr_number(title + " (#"@ + numbers::decimal(n as nat) + ")"@) == Some(n),
{
    reveal_strlit(" (#");
    reveal_strlit(")");
    reveal_strlit("(#");
    let d = numbers::decimal(n as nat);
    numbers::lemma_decimal(n as nat);
    numbers::lemma_parse_decimal(n);
    let subject = title + " (#"@ + d + ")"@;
    assert(subject.last() == ')');
    assert(!text::is_white(subject.last()));
    assert(text::trim_end(subject) == subject);
    assert(subject.skip(subject.len() - 1) =~= ")"@);
    let s = subject.take(subject.len() - 1);
    let pos: int = title.len() as int + 1;
    assert(s =~= title + " (#"@ + d);
    assert(s.subrange(pos, pos + 2) =~= "(#"@);
    assert(text::matches_at(s, "(#"@, pos));
    text::lemma_rfind_below(s, "(#"@, s.len() as int + 1);
    // No match after `pos`: those positions hold `#` or digits.
    assert forall|m: int| pos < m < s.len() as int + 1 implies !text::matches_at(s, "(#"@, m) by {
        if text::matches_at(s, "(#"@, m) {
            assert(s.subrange(m, m + 2)[0] == s[m]);
            if m == pos + 1 {
                assert(s[m] == '#');
            } else {
                assert(s[m] == d[m - pos - 2]);
                assert(numbers::is_digit(d[m - pos - 2]));
            }
        }
    }
    let idx = text::rfind(s, "(#"@)->0;
    assert(idx == pos);
    assert(s.skip(idx + 2) =~= d);
}

// ---------------------------------------------------------------------------------------------
// Implementation.
// ---------------------------------------------------------------------------------------------

/// Parses the trailing `(#N)` pull-request number from a squash-merge commit subject.
pub fn parse_trailing_pr_number(subject: &str) -> (r: Option<u64>)
    ensures
        r == trailing_pr_number(subject@),
{
    let c = chars_of(subject);
    let end = without_trailing_white(&c, 0);
    assert(c@.subrange(0, c@.len() as int) =~= c@);
    let t = subslice(&c, 0, end);
    let close = chars_of(")");
    proof {
        reveal_strlit(")");
        reveal_strlit("(#");
    }
    if !has_suffix(&t, &close) {
        return None;
    }
    let s = subslice(&t, 0, t.len() - 1);
    assert(s@ =~= t@.take(t@.len() - 1));
    let open = chars_of("(#");
    let idx = match rfind_chars(&s, &open) {
        Some(i) => i,
        None => {
            return None;
        },
    };
    proof {
        text::lemma_rfind_below(s@, open@, s@.len() as int + 1);
    }
    let d = subslice(&s, idx + 2, s.len());
    assert(d@ =~= s@.skip(idx + 2));
    if d.len() == 0 {
        return None;
    }
    if !numbers::all_digit_chars(&d) {
        return None;
    }
    numbers::parse_u64_chars(&d)
}

/// The commit to start from: the recorded marker on later runs, `--since` on the first run.
/// Giving `--since` while a marker is recorded is refused.
pub fn choose_base(marker: Option<String>, since: Option<String>) -> (r: Result<String, CollectError>)
    ensures
        match (marker, since) {
            (Some(_), Some(_)) => r == Err::<String, CollectError>(CollectError::SinceWithMarker),
            (Some(m), None) => r == Ok::<String, CollectError>(m),
            (None, Some(s)) => r == Ok::<String, CollectError>(s),
            (None, None) => r == Err::<String, CollectError>(CollectError::NoStartingPoint),
        },
{
    match (marker, since) {
        (Some(_), Some(_)) => Err(CollectError::SinceWithMarker),
        (Some(m), None) => Ok(m),
        (None, Some(s)) => Ok(s),
        (None, None) => Err(CollectError::NoStartingPoint),
    }
}

/// The trimmed, non-empty lines of `git` output (commit lists, changed paths).
pub fn nonempty_trimmed_lines(output: &str) -> (r: Vec<String>)
    ensures
        text::string_views(r@) == nonempty_lines(text::lines(output@)),
{
    let c = chars_of(output);
    let ls = lines_of(&c);
    let ghost lv = text::views(ls@);
    let mut r: Vec<String> = Vec::new();
    let mut i: usize = 0;
    assert(lv.take(0) =~= Seq::<Seq<char>>::empty());
    while i < ls.len()
        invariant
            i <= ls.len(),
            lv == text::views(ls@),
            text::string_views(r@) == nonempty_lines(lv.take(i as int)),
        decreases ls.len() - i,
    {
        let ghost before = text::string_views(r@);
        assert(lv.take(i + 1).drop_last() =~= lv.take(i as int));
        assert(lv.take(i + 1).last() == ls@[i as int]@);
        let t = trim_chars(&ls[i]);
        if t.len() > 0 {
            r.push(string_of(&t));
            assert(text::string_views(r@) =~= before + seq![t@]);
        } else {
            assert(text::string_views(r@) =~= before + Seq::<Seq<char>>::empty());
        }
        i += 1;
    }
    assert(lv.take(ls.len() as int) =~= lv);
    r
}

/// The views of `(commit, subject)` pairs.
pub open spec fn commit_subject_views(v: Seq<(String, String)>) -> Seq<(Seq<char>, Seq<char>)> {
    v.map_values(|e: (String, String)| (e.0@, e.1@))
}

/// The views of selected pull requests.
pub open spec fn selected_views(v: Seq<(u64, String)>) -> Seq<(u64, Seq<char>)> {
    v.map_values(|e: (u64, String)| (e.0, e.1@))
}

/// Picks the merged pull requests out of `(commit, subject)` pairs listed in commit order:
/// each pull-request number once, with the first commit whose subject ends in `(#N)`.
pub fn select_pr_commits(commits: &Vec<(String, String)>) -> (r: Vec<(u64, String)>)
    ensures
        selected_views(r@) == select_prs(commit_subject_views(commits@)),
{
    let ghost cv = commit_subject_views(commits@);
    let mut r: Vec<(u64, String)> = Vec::new();
    let mut i: usize = 0;
    assert(cv.take(0) =~= Seq::<(Seq<char>, Seq<char>)>::empty());
    while i < commits.len()
        invariant
            i <= commits.len(),
            cv == commit_subject_views(commits@),
            selected_views(r@) == select_prs(cv.take(i as int)),
        decreases commits.len() - i,
    {
        let ghost before = selected_views(r@);
        assert(cv.take(i + 1).drop_last() =~= cv.take(i as int));
        assert(cv.take(i + 1).last() == (commits@[i as int].0@, commits@[i as int].1@));
        let subject = string_of(&trim_chars(&chars_of(commits[i].1.as_str())));
        match parse_trailing_pr_number(subject.as_str()) {
            Some(n) => {
                let mut seen = false;
                let mut k: usize = 0;
                while k < r.len()
                    invariant
                        k <= r.len(),
                        before == selected_views(r@),
                        seen == exists|m: int| 0 <= m < k && (#[trigger] r@[m]).0 == n,
                    decreases r.len() - k,
                {
                    if r[k].0 == n {
                        seen = true;
                    }
                    k += 1;
                }
                proof {
                    if seen {
                        let m = choose|m: int| 0 <= m < k && (#[trigger] r@[m]).0 == n;
                        assert(before[m].0 == n);
                    } else {
                        assert forall|m: int| 0 <= m < before.len() implies (#[trigger] before[m]).0 != n by {
                            assert(before[m].0 == r@[m].0);
                        }
                    }
                }
                if !seen {
                    let sha = string_of(&chars_of(commits[i].0.as_str()));
                    let ghost sv = sha@;
                    r.push((n, sha));
                    assert(selected_views(r@) =~= before.push((n, sv)));
                }
            },
            None => {},
        }
        i += 1;
    }
    assert(cv.take(commits.len() as int) =~= cv);
    r
}

/// The `gh api` endpoint of a pull request.
pub fn pr_endpoint(repo: &str, number: u64) -> (r: String)
    ensures
        r@ == "/repos/"@ + repo@ + "/pulls/"@ + numbers::decimal(number as nat),
{
    let mut r = chars_of("/repos/");
    append_chars(&mut r, &chars_of(repo));
    append_chars(&mut r, &chars_of("/pulls/"));
    append_chars(&mut r, &numbers::decimal_chars(number));
    string_of(&r)
}

/// The `gh api` endpoint of a pull request's commits (up to 100 of them).
pub fn pr_commits_endpoint(repo: &str, number: u64) -> (r: String)
    ensures
        r@ == "/repos/"@ + repo@ + "/pulls/"@ + numbers::decimal(number as nat)
            + "/commits?per_page=100"@,
{
    let mut r = chars_of(pr_endpoint(repo, number).as_str());
    append_chars(&mut r, &chars_of("/commits?per_page=100"));
    string_of(&r)
}

/// The commit range from `base` to `HEAD`.
pub fn commit_range(base: &str) -> (r: String)
    ensures
        r@ == base@ + "..HEAD"@,
{
    let mut r = chars_of(base);
    append_chars(&mut r, &chars_of("..HEAD"));
    string_of(&r)
}

} // verus!
