//! The decisions of the apply stage: whether a changelog has unstaged changes, which content
//! the marker is written into, and the end-of-run summary. Reading and writing files is left
//! to the caller.

use crate::numbers;
use crate::process::{self, lookup_content, ProcessOutput, Summary};
use crate::text::{self, append_chars, chars_of, lines_of, string_of};
use vstd::prelude::*;
use vstd::utf8::*;

verus! {

// ---------------------------------------------------------------------------------------------
// Specification.
// ---------------------------------------------------------------------------------------------

/// A `git status --porcelain` line whose second byte (the working-tree column) is not a
/// space: the file has unstaged modifications.
pub open spec fn dirty_line(l: Seq<char>) -> bool {
    encode_utf8(l).len() >= 2 && encode_utf8(l)[1] != 32u8
}

/// Whether any line of `git status --porcelain` output reports unstaged modifications.
pub open spec fn dirty(status: Seq<char>) -> bool {
    exists|k: int| 0 <= k < text::lines(status).len() && dirty_line(#[trigger] text::lines(status)[k])
}

/// The content the marker is written into: the updated content of the default changelog,
/// else its current content, else nothing.
pub open spec fn marker_base(
    updated: Seq<(Seq<char>, Seq<char>)>,
    current: Seq<(Seq<char>, Seq<char>)>,
    default: Seq<char>,
) -> Seq<char> {
    match process::lookup(updated, default) {
        Some(c) => c,
        None => match process::lookup(current, default) {
            Some(c) => c,
            None => Seq::<char>::empty(),
        },
    }
}

/// The summary line of one changelog file: `  {file}: {n} entry` or `entries`.
pub open spec fn count_line(file: Seq<char>, n: nat) -> Seq<char> {
    "  "@ + file + ": "@ + numbers::decimal(n) + if n == 1 {
        " entry"@
    } else {
        " entries"@
    }
}

/// The lines of the end-of-run summary.
pub open spec fn summary_text(
    counts: Seq<(Seq<char>, nat)>,
    placeholders: nat,
    none_skipped: nat,
) -> Seq<Seq<char>> {
    seq!["git-changelog summary:"@] + counts.map_values(
        |e: (Seq<char>, nat)| count_line(e.0, e.1),
    ) + seq![
        "  placeholders: "@ + numbers::decimal(placeholders),
        "  skipped (Changelog: None): "@ + numbers::decimal(none_skipped),
    ]
}

// ---------------------------------------------------------------------------------------------
// Implementation.
// ---------------------------------------------------------------------------------------------

/// Whether a porcelain status line reports unstaged modifications.
fn dirty_status_line(line: &[char]) -> (r: bool)
    ensures
        r == dirty_line(line@),
{
    let s = string_of(line);
    let bytes = s.as_str().as_bytes();
    bytes.len() >= 2 && bytes[1] != 32u8
}

/// Whether `git status --porcelain` output reports unstaged working-tree modifications.
pub fn status_is_dirty(status: &str) -> (r: bool)
    ensures
        r == dirty(status@),
{
    let ls = lines_of(&chars_of(status));
    let ghost lv = text::lines(status@);
    assert(text::views(ls@) == lv);
    let mut i: usize = 0;
    while i < ls.len()
        invariant
            i <= ls.len(),
            lv == text::lines(status@),
            text::views(ls@) == lv,
            forall|k: int| 0 <= k < i ==> !dirty_line(#[trigger] lv[k]),
        decreases ls.len() - i,
    {
        assert(lv[i as int] == ls@[i as int]@);
        if dirty_status_line(&ls[i]) {
            return true;
        }
        i += 1;
    }
    false
}

/// The content that the `git-changelog:last-commit` marker is written into: the default
/// changelog's updated content, else its current content, else nothing.
pub fn marker_base_content(output: &ProcessOutput, current: &Vec<(String, String)>, default: &str) -> (r:
    String)
    ensures
        r@ == marker_base(
            process::pair_views(output.updated@),
            process::pair_views(current@),
            default@,
        ),
{
    match lookup_content(&output.updated, default) {
        Some(c) => string_of(&chars_of(c.as_str())),
        None => match lookup_content(current, default) {
            Some(c) => string_of(&chars_of(c.as_str())),
            None => String::new(),
        },
    }
}

/// The lines of the end-of-run summary.
pub fn summary_lines(summary: &Summary) -> (r: Vec<String>)
    ensures
        text::string_views(r@) == summary_text(
            process::count_views(summary.entries_added@),
            summary.placeholders as nat,
            summary.none_skipped as nat,
        ),
{
    let ghost cv = process::count_views(summary.entries_added@);
    let ghost f = |e: (Seq<char>, nat)| count_line(e.0, e.1);
    let mut r: Vec<String> = Vec::new();
    r.push(string_of(&chars_of("git-changelog summary:")));
    let mut i: usize = 0;
    assert(text::string_views(r@) =~= seq!["git-changelog summary:"@] + cv.take(0).map_values(f));
    while i < summary.entries_added.len()
        invariant
            i <= summary.entries_added.len(),
            cv == process::count_views(summary.entries_added@),
            f == (|e: (Seq<char>, nat)| count_line(e.0, e.1)),
            text::string_views(r@) == seq!["git-changelog summary:"@] + cv.take(i as int).map_values(f),
        decreases summary.entries_added.len() - i,
    {
        let ghost before = text::string_views(r@);
        let n = summary.entries_added[i].1;
        let mut line = chars_of("  ");
        append_chars(&mut line, &chars_of(summary.entries_added[i].0.as_str()));
        append_chars(&mut line, &chars_of(": "));
        append_chars(&mut line, &numbers::decimal_chars(n as u64));
        if n == 1 {
            append_chars(&mut line, &chars_of(" entry"));
        } else {
            append_chars(&mut line, &chars_of(" entries"));
        }
        assert(cv[i as int] == (summary.entries_added@[i as int].0@, n as nat));
        assert(line@ =~= count_line(cv[i as int].0, cv[i as int].1));
        r.push(string_of(&line));
        assert(cv.take(i + 1) =~= cv.take(i as int).push(cv[i as int]));
        assert(cv.take(i + 1).map_values(f) =~= cv.take(i as int).map_values(f).push(f(cv[i as int])));
        assert(text::string_views(r@) =~= before.push(line@));
        i += 1;
    }
    assert(cv.take(summary.entries_added.len() as int) =~= cv);
    let mut p = chars_of("  placeholders: ");
    append_chars(&mut p, &numbers::decimal_chars(summary.placeholders as u64));
    r.push(string_of(&p));
    let mut s = chars_of("  skipped (Changelog: None): ");
    append_chars(&mut s, &numbers::decimal_chars(summary.none_skipped as u64));
    r.push(string_of(&s));
    r
}

} // verus!
