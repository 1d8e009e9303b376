//! The `<!-- git-changelog:last-commit <sha> -->` marker that records which commit a changelog
//! covers up to: reading it, and inserting or updating it.

use crate::merge;
use crate::subseq;
use crate::text::{
    self, append_chars, chars_eq, chars_of, has_prefix, has_suffix, join_chars, lines_of, string_of,
    subslice, trim_chars,
};
use vstd::prelude::*;

verus! {

/// The text before the commit in a marker line.
pub open spec fn marker_prefix() -> Seq<char> {
    "<!-- git-changelog:last-commit "@
}

/// The text after the commit in a marker line.
pub open spec fn marker_suffix() -> Seq<char> {
    " -->"@
}

/// The commit a line records, if it is a marker line (after trimming).
pub open spec fn marker_value(line: Seq<char>) -> Option<Seq<char>> {
    let t = text::trim(line);
    if text::starts_with(t, marker_prefix()) {
        let r = t.skip(marker_prefix().len() as int);
        if text::ends_with(r, marker_suffix()) {
            Some(r.take(r.len() - marker_suffix().len()))
        } else {
            None
        }
    } else {
        None
    }
}

/// The commit recorded by the first marker line at or after `i`.
pub open spec fn first_marker_value(ls: Seq<Seq<char>>, i: int) -> Option<Seq<char>>
    decreases ls.len() - i,
{
    if i < 0 || i >= ls.len() {
        None
    } else {
        match marker_value(ls[i]) {
            Some(v) => Some(v),
            None => first_marker_value(ls, i + 1),
        }
    }
}

/// The commit recorded in a changelog, if any.
pub open spec fn read_marker_spec(content: Seq<char>) -> Option<Seq<char>> {
    first_marker_value(text::lines(content), 0)
}

/// Whether a line is replaced when the marker is updated: after trimming, it starts with the
/// marker prefix and ends with the marker suffix.
pub open spec fn is_marker_line(l: Seq<char>) -> bool {
    let t = text::trim(l);
    text::starts_with(t, marker_prefix()) && text::ends_with(t, marker_suffix())
}

/// The first line at or after `i` that is replaced when the marker is updated.
pub open spec fn first_marker_line(ls: Seq<Seq<char>>, i: int) -> Option<int>
    decreases ls.len() - i,
{
    if i < 0 || i >= ls.len() {
        None
    } else if is_marker_line(ls[i]) {
        Some(i)
    } else {
        first_marker_line(ls, i + 1)
    }
}

/// The first `# Changelog` heading at or after `i`.
pub open spec fn first_changelog_heading(ls: Seq<Seq<char>>, i: int) -> Option<int>
    decreases ls.len() - i,
{
    if i < 0 || i >= ls.len() {
        None
    } else if text::trim(ls[i]) == "# Changelog"@ {
        Some(i)
    } else {
        first_changelog_heading(ls, i + 1)
    }
}

/// The marker line recording `sha`.
pub open spec fn marker_line(sha: Seq<char>) -> Seq<char> {
    marker_prefix() + sha + marker_suffix()
}

/// The lines with the marker set: the existing marker line replaced, else a marker inserted
/// right under the first `# Changelog` heading, else one put first.
pub open spec fn set_marker_lines(ls: Seq<Seq<char>>, sha: Seq<char>) -> Seq<Seq<char>> {
    match first_marker_line(ls, 0) {
        Some(idx) => ls.update(idx, marker_line(sha)),
        None => match first_changelog_heading(ls, 0) {
            Some(h) => ls.insert(h + 1, marker_line(sha)),
            None => seq![marker_line(sha)] + ls,
        },
    }
}

/// The changelog with the marker set to `sha`. It ends with `'\n'` if the given text did or if a
/// marker line was added.
pub open spec fn set_marker_spec(content: Seq<char>, sha: Seq<char>) -> Seq<char> {
    let ls = text::lines(content);
    let out = set_marker_lines(ls, sha);
    if out.len() == 0 {
        seq![]
    } else if text::ends_with(content, "\n"@) || first_marker_line(ls, 0) is None {
        text::join_lines(out).push('\n')
    } else {
        text::join_lines(out)
    }
}

// ---------------------------------------------------------------------------------------------
// The marker stays out of `## [Unreleased]`.
// ---------------------------------------------------------------------------------------------

/// [`merge::find_unreleased`] finds `x` when it is the first `## [Unreleased]` heading from `i`.
proof fn lemma_find_unreleased_is(ls: Seq<Seq<char>>, i: int, x: int)
    requires
        0 <= i <= x < ls.len(),
        merge::is_unreleased_heading(ls[x]),
        forall|k: int| i <= k < x ==> !merge::is_unreleased_heading(#[trigger] ls[k]),
    ensures
        merge::find_unreleased(ls, i) == Some(x),
    decreases x - i,
{
    if i < x {
        lemma_find_unreleased_is(ls, i + 1, x);
    }
}

/// What [`merge::find_unreleased`] finds is the first `## [Unreleased]` heading from `i`.
proof fn lemma_find_unreleased_first(ls: Seq<Seq<char>>, i: int)
    requires
        0 <= i,
    ensures
        merge::find_unreleased(ls, i) matches Some(u) ==> forall|k: int|
            i <= k < u ==> !merge::is_unreleased_heading(#[trigger] ls[k]),
    decreases ls.len() - i,
{
    if i < ls.len() && !merge::is_unreleased_heading(ls[i]) {
        lemma_find_unreleased_first(ls, i + 1);
    }
}

/// What [`first_changelog_heading`] finds is a `# Changelog` heading within bounds.
proof fn lemma_first_changelog_heading_bounds(ls: Seq<Seq<char>>, i: int)
    requires
        0 <= i,
    ensures
        first_changelog_heading(ls, i) matches Some(h) ==> i <= h < ls.len(),
    decreases ls.len() - i,
{
    if i < ls.len() && text::trim(ls[i]) != "# Changelog"@ {
        lemma_first_changelog_heading_bounds(ls, i + 1);
    }
}

/// When a changelog has no marker and its `# Changelog` heading comes before its
/// `## [Unreleased]` heading, the marker is put right under the former, before the latter
/// (so it is never part of the section that becomes a release), and every other line is kept
/// in order.
pub proof fn lemma_marker_before_unreleased(ls: Seq<Seq<char>>, sha: Seq<char>)
    requires
        first_marker_line(ls, 0) is None,
        first_changelog_heading(ls, 0) is Some,
        merge::find_unreleased(ls, 0) is Some,
        first_changelog_heading(ls, 0)->0 < merge::find_unreleased(ls, 0)->0,
    ensures
        ({
            let h = first_changelog_heading(ls, 0)->0;
            let u = merge::find_unreleased(ls, 0)->0;
            let out = set_marker_lines(ls, sha);
            &&& out[h + 1] == marker_line(sha)
            &&& merge::find_unreleased(out, 0) == Some(u + 1)
            &&& h + 1 < u + 1
            &&& subseq::is_subseq(ls, out)
        }),
{
    reveal_strlit("<!-- git-changelog:last-commit ");
    reveal_strlit("## [Unreleased]");
    let h = first_changelog_heading(ls, 0)->0;
    let u = merge::find_unreleased(ls, 0)->0;
    lemma_first_changelog_heading_bounds(ls, 0);
    merge::lemma_find_unreleased(ls, 0);
    lemma_find_unreleased_first(ls, 0);
    let m = marker_line(sha);
    let out = ls.insert(h + 1, m);
    assert(out == set_marker_lines(ls, sha));
    // The marker line is no `## [Unreleased]` heading: it starts with `<`.
    assert(m[0] == '<');
    assert(!text::is_white('<'));
    assert(text::trim_start(m) == m);
    text::lemma_trim_end_prefix(m);
    assert(!merge::is_unreleased_heading(m)) by {
        let t = text::trim(m);
        if t == "## [Unreleased]"@ {
            assert(t.len() > 0);
            assert(t == m.take(t.len() as int));
            assert(t[0] == m[0]);
        }
    }
    assert forall|k: int| 0 <= k < u + 1 implies !merge::is_unreleased_heading(#[trigger] out[k]) by {
        if k < h + 1 {
            assert(out[k] == ls[k]);
        } else if k > h + 1 {
            assert(out[k] == ls[k - 1]);
        } else {
            assert(out[k] == m);
        }
    }
    assert(out[u + 1] == ls[u]);
    lemma_find_unreleased_is(out, 0, u + 1);
    subseq::lemma_subseq_insert(ls, h + 1, m);
}

// ---------------------------------------------------------------------------------------------
// Reading back what was written.
// ---------------------------------------------------------------------------------------------

/// A marker line records its commit.
pub proof fn lemma_marker_line_value(sha: Seq<char>)
    ensures
        marker_value(marker_line(sha)) == Some(sha),
        !text::has_char(marker_line(sha), '\n') <== !text::has_char(sha, '\n'),
{
    reveal_strlit("<!-- git-changelog:last-commit ");
    reveal_strlit(" -->");
    let p = marker_prefix();
    let q = marker_suffix();
    let l = marker_line(sha);
    assert(l[0] == '<');
    assert(!text::is_white(l[0]));
    assert(text::trim_start(l) == l);
    assert(l.last() == '>');
    assert(!text::is_white(l.last()));
    assert(text::trim_end(l) == l);
    assert(text::trim(l) == l);
    assert(l.take(p.len() as int) =~= p);
    let r = l.skip(p.len() as int);
    assert(r =~= sha + q);
    assert(r.skip(r.len() - q.len()) =~= q);
    assert(r.take(r.len() - q.len()) =~= sha);
    if !text::has_char(sha, '\n') {
        assert forall|k: int| 0 <= k < l.len() implies l[k] != '\n' by {
            if k >= p.len() && k < p.len() + sha.len() {
                assert(l[k] == sha[k - p.len()]);
            }
        }
    }
}

/// What is read depends only on a line's trimmed text, so a final `'\r'` does not matter.
pub proof fn lemma_marker_value_strip_cr(l: Seq<char>)
    ensures
        marker_value(text::strip_cr(l)) == marker_value(l),
{
    text::lemma_trim_strip_cr(l);
}

/// A line that is read as a marker is also one that is replaced.
pub proof fn lemma_marker_value_is_marker_line(l: Seq<char>)
    ensures
        marker_value(l) is Some ==> is_marker_line(l),
{
    if marker_value(l) is Some {
        let t = text::trim(l);
        let n = marker_prefix().len() as int;
        let r = t.skip(n);
        assert(r.skip(r.len() - marker_suffix().len()) =~= t.skip(t.len() - marker_suffix().len()));
    }
}

/// The first marker value is found at `m` when no line before it is a marker.
pub proof fn lemma_first_marker_value_at(ls: Seq<Seq<char>>, i: int, m: int)
    requires
        0 <= i <= m < ls.len(),
        forall|k: int| i <= k < m ==> marker_value(#[trigger] ls[k]) is None,
        marker_value(ls[m]) is Some,
    ensures
        first_marker_value(ls, i) == marker_value(ls[m]),
    decreases m - i,
{
    if i < m {
        lemma_first_marker_value_at(ls, i + 1, m);
    }
}

/// Before the first replaced line, no line is a marker.
pub proof fn lemma_first_marker_line(ls: Seq<Seq<char>>, i: int)
    requires
        0 <= i,
    ensures
        first_marker_line(ls, i) matches Some(m) ==> i <= m < ls.len() && is_marker_line(ls[m])
            && forall|k: int| i <= k < m ==> !is_marker_line(#[trigger] ls[k]),
        first_marker_line(ls, i) is None ==> forall|k: int|
            i <= k < ls.len() ==> !is_marker_line(#[trigger] ls[k]),
    decreases ls.len() - i,
{
    if i < ls.len() && !is_marker_line(ls[i]) {
        lemma_first_marker_line(ls, i + 1);
    }
}

/// Bounds of [`first_changelog_heading`].
pub proof fn lemma_first_changelog_heading(ls: Seq<Seq<char>>, i: int)
    requires
        0 <= i,
    ensures
        first_changelog_heading(ls, i) matches Some(h) ==> i <= h < ls.len(),
    decreases ls.len() - i,
{
    if i < ls.len() && text::trim(ls[i]) != "# Changelog"@ {
        lemma_first_changelog_heading(ls, i + 1);
    }
}

/// Reading the marker back after setting it gives the commit that was set, whatever the
/// changelog held before (for a commit with no line break in it).
pub proof fn lemma_read_after_set(content: Seq<char>, sha: Seq<char>)
    requires
        !text::has_char(sha, '\n'),
    ensures
        read_marker_spec(set_marker_spec(content, sha)) == Some(sha),
{
    let ls = text::lines(content);
    let ml = marker_line(sha);
    let out = set_marker_lines(ls, sha);
    lemma_marker_line_value(sha);
    text::lemma_lines_no_newlines(content);
    lemma_first_marker_line(ls, 0);
    lemma_first_changelog_heading(ls, 0);
    // The position of the marker line in `out`; every line before it is a line of the given text that
    // is not a marker.
    let m: int = match first_marker_line(ls, 0) {
        Some(idx) => idx,
        None => match first_changelog_heading(ls, 0) {
            Some(h) => h + 1,
            None => 0,
        },
    };
    assert(0 <= m < out.len() && out[m] == ml);
    assert forall|k: int| 0 <= k < m implies marker_value(#[trigger] out[k]) is None by {
        assert(out[k] == ls[k]);
        lemma_marker_value_is_marker_line(ls[k]);
    }
    assert(text::no_newlines(out)) by {
        assert forall|k: int| 0 <= k < out.len() implies !text::has_char(#[trigger] out[k], '\n') by {
            if k != m {
                if k < m {
                    assert(out[k] == ls[k]);
                } else if first_marker_line(ls, 0) is Some {
                    assert(out[k] == ls[k]);
                } else {
                    assert(out[k] == ls[k - 1]);
                }
            }
        }
    }
    let text_out = set_marker_spec(content, sha);
    let lo = text::lines(text_out);
    // The lines read back agree with `out`, up to a final '\r', through the marker line.
    if text::ends_with(content, "\n"@) || first_marker_line(ls, 0) is None {
        text::lemma_lines_join_terminated(out);
        assert(text_out =~= text::join_lines(out) + seq!['\n']);
        assert(lo == text::strip_cr_all(out));
    } else if out.last().len() > 0 {
        text::lemma_lines_join_unterminated(out);
        assert(lo == text::strip_cr_all(out.drop_last()).push(out.last()));
    } else {
        // The last line is empty, so it is not the marker line and splitting drops it.
        assert(ml.len() > 0) by {
            reveal_strlit("<!-- git-changelog:last-commit ");
        }
        assert(out[m].len() > 0);
        assert(m < out.len() - 1);
        let front = out.drop_last();
        assert(out =~= front.push(out.last()));
        text::lemma_join_push(front, out.last());
        assert(text::join_lines(out) =~= text::join_lines(front) + seq!['\n']);
        assert(text::no_newlines(front)) by {
            assert forall|k: int| 0 <= k < front.len() implies !text::has_char(#[trigger] front[k], '\n') by {
                assert(front[k] == out[k]);
            }
        }
        text::lemma_lines_join_terminated(front);
        assert(lo == text::strip_cr_all(front));
    }
    assert(lo.len() > m);
    assert forall|k: int| 0 <= k <= m implies marker_value(#[trigger] lo[k]) == marker_value(out[k]) by {
        lemma_marker_value_strip_cr(out[k]);
    }
    assert forall|k: int| 0 <= k < m implies marker_value(#[trigger] lo[k]) is None by {
        assert(marker_value(lo[k]) == marker_value(out[k]));
    }
    lemma_first_marker_value_at(lo, 0, m);
}

// ---------------------------------------------------------------------------------------------
// Setting the same marker again changes nothing.
// ---------------------------------------------------------------------------------------------

/// The first replaced line from `i` is `m` when no line before it is replaced.
proof fn lemma_first_marker_line_at(ls: Seq<Seq<char>>, i: int, m: int)
    requires
        0 <= i <= m < ls.len(),
        forall|k: int| i <= k < m ==> !is_marker_line(#[trigger] ls[k]),
        is_marker_line(ls[m]),
    ensures
        first_marker_line(ls, i) == Some(m),
    decreases m - i,
{
    if i < m {
        lemma_first_marker_line_at(ls, i + 1, m);
    }
}

/// Where setting the marker puts the marker line: no line before it is replaced, and every
/// other line is one of the given lines.
proof fn lemma_set_marker_position(ls: Seq<Seq<char>>, sha: Seq<char>) -> (m: int)
    ensures
        0 <= m < set_marker_lines(ls, sha).len(),
        set_marker_lines(ls, sha)[m] == marker_line(sha),
        forall|k: int| 0 <= k < m ==> !is_marker_line(#[trigger] set_marker_lines(ls, sha)[k]),
        forall|k: int|
            0 <= k < set_marker_lines(ls, sha).len() && k != m ==> ls.contains(
                #[trigger] set_marker_lines(ls, sha)[k],
            ),
{
    let out = set_marker_lines(ls, sha);
    lemma_first_marker_line(ls, 0);
    lemma_first_changelog_heading(ls, 0);
    let m: int = match first_marker_line(ls, 0) {
        Some(idx) => idx,
        None => match first_changelog_heading(ls, 0) {
            Some(h) => h + 1,
            None => 0,
        },
    };
    assert forall|k: int| 0 <= k < m implies !is_marker_line(#[trigger] out[k]) by {
        assert(out[k] == ls[k]);
    }
    assert forall|k: int| 0 <= k < out.len() && k != m implies ls.contains(#[trigger] out[k]) by {
        if first_marker_line(ls, 0) is Some || k < m {
            assert(out[k] == ls[k]);
        } else {
            assert(out[k] == ls[k - 1]);
        }
    }
    m
}

/// A marker line is replaced when the marker is set, and splitting a text gives it back as it is.
proof fn lemma_marker_line_plain(sha: Seq<char>)
    requires
        !text::has_char(sha, '\n'),
    ensures
        is_marker_line(marker_line(sha)),
        text::plain_line(marker_line(sha)),
{
    reveal_strlit(" -->");
    lemma_marker_line_value(sha);
    lemma_marker_value_is_marker_line(marker_line(sha));
    assert(marker_line(sha).last() == '>');
}

/// Setting the marker on lines that already record it changes nothing.
proof fn lemma_set_marker_lines_again(ls: Seq<Seq<char>>, sha: Seq<char>, m: int)
    requires
        !text::has_char(sha, '\n'),
        0 <= m < ls.len(),
        ls[m] == marker_line(sha),
        forall|k: int| 0 <= k < m ==> !is_marker_line(#[trigger] ls[k]),
    ensures
        set_marker_lines(ls, sha) == ls,
        first_marker_line(ls, 0) == Some(m),
{
    lemma_marker_line_plain(sha);
    lemma_first_marker_line_at(ls, 0, m);
    assert(ls.update(m, marker_line(sha)) =~= ls);
}

/// Whether splitting a changelog, setting its marker and joining the lines again gives back
/// lines that split the same way: every line but the replaced marker line keeps no final
/// `'\r'` once split, except the last line of a text that records a marker and does not end
/// with a newline (splitting keeps such a line as it is).
pub open spec fn resplits_alike(content: Seq<char>) -> bool {
    let ls = text::lines(content);
    forall|k: int|
        0 <= k < ls.len() && first_marker_line(ls, 0) != Some(k) ==> text::plain_line(#[trigger] ls[k])
            || (k == ls.len() - 1 && !text::ends_with(content, "\n"@) && first_marker_line(ls, 0) is Some)
}

/// Setting the marker twice to the same commit gives what setting it once gave: no second
/// marker line and no extra line break (for a commit with no line break in it, on a changelog
/// whose lines split alike again once the marker is set).
pub proof fn lemma_set_marker_idempotent(content: Seq<char>, sha: Seq<char>)
    requires
        !text::has_char(sha, '\n'),
        resplits_alike(content),
    ensures
        set_marker_spec(set_marker_spec(content, sha), sha) == set_marker_spec(content, sha),
{
    let ls = text::lines(content);
    let out = set_marker_lines(ls, sha);
    let c1 = set_marker_spec(content, sha);
    let m = lemma_set_marker_position(ls, sha);
    reveal_strlit("\n");
    lemma_marker_line_plain(sha);
    text::lemma_lines_no_newlines(content);
    assert(marker_line(sha).len() > 0) by {
        reveal_strlit(" -->");
    }
    if text::ends_with(content, "\n"@) || first_marker_line(ls, 0) is None {
        assert(text::plain_lines(out)) by {
            assert forall|k: int| 0 <= k < out.len() implies text::plain_line(#[trigger] out[k]) by {
                if k != m {
                    if let Some(idx) = first_marker_line(ls, 0) {
                        lemma_first_marker_line(ls, 0);
                        assert(out == ls.update(idx, marker_line(sha)));
                        assert(out[k] == ls[k]);
                        if k == idx {
                            assert(out[k] == marker_line(sha));
                        }
                    } else {
                        let j = choose|j: int| 0 <= j < ls.len() && ls[j] == out[k];
                        assert(text::plain_line(ls[j]));
                    }
                }
            }
        }
        assert(text::no_newlines(out));
        assert(text::strip_cr_all(out) =~= out);
        assert(c1 == text::join_lines(out).push('\n'));
        text::lemma_lines_join_terminated(out);
        assert(text::join_lines(out) + seq!['\n'] =~= text::join_lines(out).push('\n'));
        assert(text::lines(c1) == out);
        lemma_set_marker_lines_again(out, sha, m);
        assert(c1.skip(c1.len() - 1) =~= "\n"@);
        assert(text::ends_with(c1, "\n"@));
        assert(set_marker_spec(c1, sha) == text::join_lines(out).push('\n'));
    } else {
        let idx = first_marker_line(ls, 0)->0;
        lemma_first_marker_line(ls, 0);
        let ml = marker_line(sha);
        assert(out == ls.update(idx, ml));
        assert(c1 == text::join_lines(out));
        assert(text::no_newlines(out)) by {
            assert forall|k: int| 0 <= k < out.len() implies !text::has_char(#[trigger] out[k], '\n') by {
                if k != idx {
                    assert(out[k] == ls[k]);
                }
            }
        }
        assert forall|k: int| 0 <= k < idx implies !is_marker_line(#[trigger] out[k]) by {
            assert(out[k] == ls[k]);
        }
        let front = out.drop_last();
        let last = out.last();
        assert(out =~= front.push(last));
        text::lemma_join_push(front, last);
        assert(text::plain_lines(front)) by {
            assert forall|k: int| 0 <= k < front.len() implies text::plain_line(#[trigger] front[k]) by {
                assert(front[k] == out[k]);
                if k != idx {
                    assert(out[k] == ls[k]);
                    assert(text::plain_line(ls[k]));
                }
            }
        }
        assert(text::strip_cr_all(front) =~= front);
        if last.len() > 0 {
            text::lemma_lines_join_unterminated(out);
            assert(text::lines(c1) =~= out);
            lemma_set_marker_lines_again(out, sha, idx);
            assert(c1.last() == last.last());
            assert(!text::has_char(last, '\n'));
            assert(!text::ends_with(c1, "\n"@)) by {
                if text::ends_with(c1, "\n"@) {
                    assert(c1.skip(c1.len() - 1)[0] == c1.last());
                    assert(last[last.len() - 1] == '\n');
                }
            }
            assert(set_marker_spec(c1, sha) == text::join_lines(out));
        } else {
            assert(idx < out.len() - 1);
            assert(front.len() > 0);
            assert(c1 =~= text::join_lines(front) + seq!['\n']);
            assert(text::no_newlines(front)) by {
                assert forall|k: int| 0 <= k < front.len() implies !text::has_char(#[trigger] front[k], '\n') by {
                    assert(front[k] == out[k]);
                }
            }
            text::lemma_lines_join_terminated(front);
            assert(text::lines(c1) == front);
            assert forall|k: int| 0 <= k < idx implies !is_marker_line(#[trigger] front[k]) by {
                assert(front[k] == out[k]);
            }
            lemma_set_marker_lines_again(front, sha, idx);
            assert(c1.skip(c1.len() - 1) =~= "\n"@);
            assert(text::ends_with(c1, "\n"@));
            assert(text::join_lines(front).push('\n') =~= c1);
            assert(set_marker_spec(c1, sha) == text::join_lines(front).push('\n'));
        }
    }
}

// ---------------------------------------------------------------------------------------------
// Implementation.
// ---------------------------------------------------------------------------------------------

/// The commit recorded by a line, if it is a marker line.
fn marker_value_of(line: &[char]) -> (r: Option<Vec<char>>)
    ensures
        match r {
            Some(v) => marker_value(line@) == Some(v@),
            None => marker_value(line@) is None,
        },
{
    let t = trim_chars(line);
    let prefix = chars_of("<!-- git-changelog:last-commit ");
    let suffix = chars_of(" -->");
    if !has_prefix(&t, &prefix) {
        return None;
    }
    let r = subslice(&t, prefix.len(), t.len());
    assert(r@ =~= t@.skip(prefix@.len() as int));
    if !has_suffix(&r, &suffix) {
        return None;
    }
    let v = subslice(&r, 0, r.len() - suffix.len());
    assert(v@ =~= r@.take(r@.len() - suffix@.len()));
    Some(v)
}

/// Reads the `git-changelog:last-commit` marker value out of changelog content, if present.
pub fn read_marker(content: &str) -> (r: Option<String>)
    ensures
        match r {
            Some(s) => read_marker_spec(content@) == Some(s@),
            None => read_marker_spec(content@) is None,
        },
{
    let c = chars_of(content);
    let ls = lines_of(&c);
    let ghost lv = text::views(ls@);
    let mut i: usize = 0;
    while i < ls.len()
        invariant
            i <= ls.len(),
            lv == text::views(ls@),
            lv == text::lines(content@),
            first_marker_value(lv, 0) == first_marker_value(lv, i as int),
        decreases ls.len() - i,
    {
        assert(lv[i as int] == ls@[i as int]@);
        match marker_value_of(&ls[i]) {
            Some(v) => {
                return Some(string_of(&v));
            },
            None => {},
        }
        i += 1;
    }
    None
}

/// Whether a line is a marker line to replace.
fn is_marker_line_of(line: &[char]) -> (r: bool)
    ensures
        r == is_marker_line(line@),
{
    let t = trim_chars(line);
    let prefix = chars_of("<!-- git-changelog:last-commit ");
    let suffix = chars_of(" -->");
    has_prefix(&t, &prefix) && has_suffix(&t, &suffix)
}

/// The first line that is replaced when the marker is updated.
fn first_marker_line_index(ls: &Vec<Vec<char>>) -> (r: Option<usize>)
    ensures
        match r {
            Some(i) => first_marker_line(text::views(ls@), 0) == Some(i as int) && i < ls.len(),
            None => first_marker_line(text::views(ls@), 0) is None,
        },
{
    let ghost lv = text::views(ls@);
    let mut i: usize = 0;
    while i < ls.len()
        invariant
            i <= ls.len(),
            lv == text::views(ls@),
            first_marker_line(lv, 0) == first_marker_line(lv, i as int),
        decreases ls.len() - i,
    {
        assert(lv[i as int] == ls@[i as int]@);
        if is_marker_line_of(&ls[i]) {
            return Some(i);
        }
        i += 1;
    }
    None
}

/// The first `# Changelog` heading.
fn first_heading_index(ls: &Vec<Vec<char>>) -> (r: Option<usize>)
    ensures
        match r {
            Some(i) => first_changelog_heading(text::views(ls@), 0) == Some(i as int) && i < ls.len(),
            None => first_changelog_heading(text::views(ls@), 0) is None,
        },
{
    let ghost lv = text::views(ls@);
    let heading = chars_of("# Changelog");
    let mut i: usize = 0;
    while i < ls.len()
        invariant
            i <= ls.len(),
            lv == text::views(ls@),
            heading@ == "# Changelog"@,
            first_changelog_heading(lv, 0) == first_changelog_heading(lv, i as int),
        decreases ls.len() - i,
    {
        assert(lv[i as int] == ls@[i as int]@);
        if chars_eq(&trim_chars(&ls[i]), &heading) {
            return Some(i);
        }
        i += 1;
    }
    None
}

/// Inserts or updates the `git-changelog:last-commit` marker, placing it directly under the
/// first `# Changelog` heading (i.e. outside `## [Unreleased]`, so it is never promoted into a
/// versioned section).
pub fn set_marker(content: &str, sha: &str) -> (r: String)
    ensures
        r@ == set_marker_spec(content@, sha@),
{
    let c = chars_of(content);
    let ls = lines_of(&c);
    let ghost lv = text::views(ls@);
    let mut marker = chars_of("<!-- git-changelog:last-commit ");
    append_chars(&mut marker, &chars_of(sha));
    append_chars(&mut marker, &chars_of(" -->"));
    assert(marker@ == marker_line(sha@));
    let existing = first_marker_line_index(&ls);
    let mut out = crate::merge::lines_range(&ls, 0, ls.len());
    assert(lv.subrange(0, lv.len() as int) =~= lv);
    match existing {
        Some(idx) => {
            out.remove(idx);
            let ghost mid = text::views(out@);
            assert(mid =~= lv.remove(idx as int));
            out.insert(idx, marker);
            assert(text::views(out@) =~= lv.update(idx as int, marker_line(sha@)));
        },
        None => {
            let at: usize = match first_heading_index(&ls) {
                Some(h) => h + 1,
                None => 0,
            };
            out.insert(at, marker);
            assert(text::views(out@) =~= lv.insert(at as int, marker_line(sha@)));
            assert(seq![marker_line(sha@)] + lv =~= lv.insert(0, marker_line(sha@)));
        },
    }
    assert(text::views(out@) == set_marker_lines(lv, sha@));
    if out.len() == 0 {
        return String::new();
    }
    let mut joined = join_chars(&out);
    let nl = chars_of("\n");
    if has_suffix(&c, &nl) || existing.is_none() {
        joined.push('\n');
    }
    string_of(&joined)
}

} // verus!
