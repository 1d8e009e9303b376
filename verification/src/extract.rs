//! Parsing the `Changelog` block of a pull request body.
//!
//! A body opts out with a `Changelog: None` line, or names its entries in a blockquote that
//! follows a `Changelog` line (bold optional), grouped under `### Section` headings.

use crate::text::{
    self, append_chars, blank, chars_of, eq_ignore_case, find_chars, has_prefix, has_suffix, lines_of,
    string_of, subslice, trim_chars, trim_start_chars,
};
use vstd::prelude::*;

verus! {

/// A single `### Section` from a pull request body's changelog blockquote.
#[derive(Debug, Clone, PartialEq, Eq)]
pub struct ChangelogSection {
    /// The section heading text (e.g. `Added`).
    pub name: String,
    /// The bullet lines under this section, with the leading `- ` stripped.
    pub bullets: Vec<String>,
}

/// The outcome of parsing a pull request body's `Changelog` block.
#[derive(Debug, Clone, PartialEq, Eq)]
pub enum Extraction {
    /// The pull request opted out via `Changelog: None`.
    NoneOptOut,
    /// A recognizable `Changelog` marker and blockquote, parsed into sections.
    Sections(Vec<ChangelogSection>),
    /// No recognizable marker and blockquote (or an empty or malformed one).
    Placeholder,
}

/// The model of a [`ChangelogSection`].
pub struct SectionModel {
    pub name: Seq<char>,
    pub bullets: Seq<Seq<char>>,
}

/// The model of an [`Extraction`].
pub enum ExtractionModel {
    NoneOptOut,
    Sections(Seq<SectionModel>),
    Placeholder,
}

impl View for ChangelogSection {
    type V = SectionModel;

    open spec fn view(&self) -> SectionModel {
        SectionModel { name: self.name@, bullets: text::string_views(self.bullets@) }
    }
}

/// The models of a sequence of sections.
pub open spec fn section_views(v: Seq<ChangelogSection>) -> Seq<SectionModel> {
    v.map_values(|s: ChangelogSection| s@)
}

impl View for Extraction {
    type V = ExtractionModel;

    open spec fn view(&self) -> ExtractionModel {
        match self {
            Extraction::NoneOptOut => ExtractionModel::NoneOptOut,
            Extraction::Sections(v) => ExtractionModel::Sections(section_views(v@)),
            Extraction::Placeholder => ExtractionModel::Placeholder,
        }
    }
}

/// What a marker line says.
#[derive(PartialEq, Eq, Structural, Clone, Copy, Debug)]
pub enum MarkerKind {
    /// `Changelog: None`.
    OptOut,
    /// `Changelog`.
    Changelog,
}

// ---------------------------------------------------------------------------------------------
// Specification.
// ---------------------------------------------------------------------------------------------

/// `<!-- ... -->` HTML comments removed, everything else kept verbatim. An unterminated comment
/// runs to the end of the text. The closing `-->` is searched for from the start of the opening
/// `<!--`.
pub open spec fn strip_comments(s: Seq<char>) -> Seq<char>
    decreases s.len(),
{
    match text::find(s, "<!--"@) {
        None => s,
        Some(i) => if 0 <= i <= s.len() {
            s.take(i) + match text::find(s.skip(i), "-->"@) {
                None => seq![],
                Some(e) => if 0 <= e && i + e + 3 <= s.len() && 0 < i + e + 3 {
                    strip_comments(s.skip(i + e + 3))
                } else {
                    seq![]
                },
            }
        } else {
            s
        },
    }
}

/// A marker line's text: trimmed, without optional surrounding `**`, trimmed again.
pub open spec fn marker_text(line: Seq<char>) -> Seq<char> {
    let t = text::trim(line);
    let inner = t.skip(2);
    if text::starts_with(t, "**"@) && text::ends_with(inner, "**"@) {
        text::trim(inner.take(inner.len() - 2))
    } else {
        text::trim(t)
    }
}

/// What a line says, if it is a marker (case-insensitively).
pub open spec fn marker_kind(line: Seq<char>) -> Option<MarkerKind> {
    let t = marker_text(line);
    if text::eq_ignore_ascii_case(t, "changelog: none"@) {
        Some(MarkerKind::OptOut)
    } else if text::eq_ignore_ascii_case(t, "changelog"@) {
        Some(MarkerKind::Changelog)
    } else {
        None
    }
}

/// The first marker line at or after `i`.
pub open spec fn first_marker(ls: Seq<Seq<char>>, i: int) -> Option<int>
    decreases ls.len() - i,
{
    if i < 0 || i >= ls.len() {
        None
    } else if marker_kind(ls[i]) is Some {
        Some(i)
    } else {
        first_marker(ls, i + 1)
    }
}

/// The first non-blank line at or after `j` (or the number of lines).
pub open spec fn next_nonblank(ls: Seq<Seq<char>>, j: int) -> int
    decreases ls.len() - j,
{
    if j < 0 || j >= ls.len() {
        ls.len() as int
    } else if !text::is_blank(ls[j]) {
        j
    } else {
        next_nonblank(ls, j + 1)
    }
}

/// Whether a line belongs to a blockquote.
pub open spec fn is_quote_line(l: Seq<char>) -> bool {
    text::starts_with(text::trim_start(l), ">"@)
}

/// The end of the run of blockquote lines starting at `j`.
pub open spec fn quote_end(ls: Seq<Seq<char>>, j: int) -> int
    decreases ls.len() - j,
{
    if j < 0 || j >= ls.len() {
        ls.len() as int
    } else if !is_quote_line(ls[j]) {
        j
    } else {
        quote_end(ls, j + 1)
    }
}

/// A blockquote line without its leading whitespace, `>` and one following space.
pub open spec fn dequote(l: Seq<char>) -> Seq<char> {
    let t = text::trim_start(l);
    let t = if text::starts_with(t, ">"@) {
        t.skip(1)
    } else {
        t
    };
    if text::starts_with(t, " "@) {
        t.skip(1)
    } else {
        t
    }
}

/// Every line dequoted.
pub open spec fn dequote_all(ls: Seq<Seq<char>>) -> Seq<Seq<char>> {
    ls.map_values(|l: Seq<char>| dequote(l))
}

/// One line of section parsing: a `### ` line starts a section, a `- ` line adds a bullet to
/// the last section (if any), anything else is ignored.
pub open spec fn section_step(secs: Seq<SectionModel>, line: Seq<char>) -> Seq<SectionModel> {
    let t = text::trim(line);
    if text::starts_with(t, "### "@) {
        secs.push(SectionModel { name: text::trim(t.skip(4)), bullets: seq![] })
    } else if text::starts_with(t, "- "@) && secs.len() > 0 {
        secs.update(
            secs.len() - 1,
            SectionModel {
                name: secs.last().name,
                bullets: secs.last().bullets.push(text::trim(t.skip(2))),
            },
        )
    } else {
        secs
    }
}

/// The sections of a blockquote's (dequoted) lines.
pub open spec fn parse_sections(qs: Seq<Seq<char>>) -> Seq<SectionModel>
    decreases qs.len(),
{
    if qs.len() == 0 {
        seq![]
    } else {
        section_step(parse_sections(qs.drop_last()), qs.last())
    }
}

/// Whether every section has no bullets.
pub open spec fn all_sections_empty(secs: Seq<SectionModel>) -> bool {
    forall|k: int| 0 <= k < secs.len() ==> (#[trigger] secs[k]).bullets.len() == 0
}

/// The extraction of a body's lines (comments already stripped).
pub open spec fn extract_lines(ls: Seq<Seq<char>>) -> ExtractionModel {
    match first_marker(ls, 0) {
        None => ExtractionModel::Placeholder,
        Some(i) => if marker_kind(ls[i]) == Some(MarkerKind::OptOut) {
            ExtractionModel::NoneOptOut
        } else {
            let j = next_nonblank(ls, i + 1);
            if j >= ls.len() || !is_quote_line(ls[j]) {
                ExtractionModel::Placeholder
            } else {
                let e = quote_end(ls, j);
                let secs = parse_sections(dequote_all(ls.subrange(j, e)));
                if secs.len() == 0 || all_sections_empty(secs) {
                    ExtractionModel::Placeholder
                } else {
                    ExtractionModel::Sections(secs)
                }
            }
        },
    }
}

/// The extraction of a pull request body.
pub open spec fn extract(body: Option<Seq<char>>) -> ExtractionModel {
    match body {
        None => ExtractionModel::Placeholder,
        Some(b) => extract_lines(text::lines(strip_comments(b))),
    }
}

// ---------------------------------------------------------------------------------------------
// Each bullet belongs to the heading above it.
// ---------------------------------------------------------------------------------------------

/// Reading one more blockquote line: a `### ` heading opens a new, empty section after the
/// others; a `- ` bullet goes at the end of the bullets of the last section opened, and every
/// other section stays as it was (with no section open yet, nothing changes); any other line
/// changes nothing.
pub proof fn lemma_parse_sections_push(qs: Seq<Seq<char>>, l: Seq<char>)
    ensures
        ({
            let p = parse_sections(qs);
            let q = parse_sections(qs.push(l));
            let t = text::trim(l);
            &&& text::starts_with(t, "### "@) ==> q == p.push(
                SectionModel { name: text::trim(t.skip(4)), bullets: seq![] },
            )
            &&& !text::starts_with(t, "### "@) && text::starts_with(t, "- "@) && p.len() > 0 ==> {
                &&& q.len() == p.len()
                &&& forall|k: int| 0 <= k < p.len() - 1 ==> #[trigger] q[k] == p[k]
                &&& q[p.len() - 1].name == p[p.len() - 1].name
                &&& q[p.len() - 1].bullets == p[p.len() - 1].bullets.push(text::trim(t.skip(2)))
            }
            &&& !text::starts_with(t, "### "@) && !(text::starts_with(t, "- "@) && p.len() > 0) ==> q
                == p
        }),
{
    assert(qs.push(l).drop_last() =~= qs);
    assert(qs.push(l).last() == l);
}

// ---------------------------------------------------------------------------------------------
// Extracted text is made of plain lines.
// ---------------------------------------------------------------------------------------------

/// Whether every section name and bullet is a plain line.
pub open spec fn sections_plain(secs: Seq<SectionModel>) -> bool {
    forall|k: int|
        0 <= k < secs.len() ==> text::plain_line(#[trigger] secs[k].name) && text::plain_lines(secs[k].bullets)
}

/// Trimming a part of a text without `'\n'` gives a plain line.
proof fn lemma_trim_skip_plain(t: Seq<char>, k: int)
    requires
        !text::has_char(t, '\n'),
        0 <= k <= t.len(),
    ensures
        text::plain_line(text::trim(t.skip(k))),
{
    text::lemma_subrange_no_newline(t, k, t.len() as int);
    assert(t.skip(k) =~= t.subrange(k, t.len() as int));
    text::lemma_trim_plain(t.skip(k));
}

/// One line of section parsing keeps the sections plain.
proof fn lemma_section_step_plain(secs: Seq<SectionModel>, line: Seq<char>)
    requires
        sections_plain(secs),
        !text::has_char(line, '\n'),
    ensures
        sections_plain(section_step(secs, line)),
{
    reveal_strlit("### ");
    reveal_strlit("- ");
    let t = text::trim(line);
    text::lemma_trim_plain(line);
    let out = section_step(secs, line);
    if text::starts_with(t, "### "@) {
        lemma_trim_skip_plain(t, 4);
        assert forall|k: int| 0 <= k < out.len() implies text::plain_line(#[trigger] out[k].name)
            && text::plain_lines(out[k].bullets) by {
            if k < secs.len() {
                assert(out[k] == secs[k]);
            }
        }
    } else if text::starts_with(t, "- "@) && secs.len() > 0 {
        lemma_trim_skip_plain(t, 2);
        let last = secs.last();
        assert(text::plain_lines(last.bullets));
        let nb = last.bullets.push(text::trim(t.skip(2)));
        assert forall|i: int| 0 <= i < nb.len() implies text::plain_line(#[trigger] nb[i]) by {
            if i < last.bullets.len() {
                assert(nb[i] == last.bullets[i]);
            }
        }
        assert forall|k: int| 0 <= k < out.len() implies text::plain_line(#[trigger] out[k].name)
            && text::plain_lines(out[k].bullets) by {
            if k < secs.len() - 1 {
                assert(out[k] == secs[k]);
            }
        }
    }
}

/// The sections of lines without `'\n'` are plain.
proof fn lemma_parse_sections_plain(qs: Seq<Seq<char>>)
    requires
        text::no_newlines(qs),
    ensures
        sections_plain(parse_sections(qs)),
    decreases qs.len(),
{
    if qs.len() > 0 {
        let p = qs.drop_last();
        assert forall|i: int| 0 <= i < p.len() implies !text::has_char(#[trigger] p[i], '\n') by {
            assert(p[i] == qs[i]);
        }
        lemma_parse_sections_plain(p);
        assert(!text::has_char(qs[qs.len() - 1], '\n'));
        lemma_section_step_plain(parse_sections(p), qs.last());
    }
}

/// Dequoting a line without `'\n'` leaves none.
proof fn lemma_dequote_no_newline(l: Seq<char>)
    requires
        !text::has_char(l, '\n'),
    ensures
        !text::has_char(dequote(l), '\n'),
{
    reveal_strlit(">");
    reveal_strlit(" ");
    let t = text::trim_start(l);
    text::lemma_trim_start_suffix(l);
    text::lemma_subrange_no_newline(l, l.len() - t.len(), l.len() as int);
    assert(t =~= l.subrange(l.len() - t.len(), l.len() as int));
    let t2 = if text::starts_with(t, ">"@) {
        t.skip(1)
    } else {
        t
    };
    if text::starts_with(t, ">"@) {
        text::lemma_subrange_no_newline(t, 1, t.len() as int);
        assert(t.skip(1) =~= t.subrange(1, t.len() as int));
    }
    if text::starts_with(t2, " "@) {
        text::lemma_subrange_no_newline(t2, 1, t2.len() as int);
        assert(t2.skip(1) =~= t2.subrange(1, t2.len() as int));
    }
}

/// Every section name and bullet of an extraction is a plain line.
pub proof fn lemma_extract_plain(body: Option<Seq<char>>)
    ensures
        extract(body) matches ExtractionModel::Sections(secs) ==> sections_plain(secs),
{
    if let Some(b) = body {
        let ls = text::lines(strip_comments(b));
        text::lemma_lines_no_newlines(strip_comments(b));
        lemma_first_marker(ls, 0);
        if let Some(i) = first_marker(ls, 0) {
            let j = next_nonblank(ls, i + 1);
            lemma_next_nonblank(ls, i + 1);
            if j < ls.len() && is_quote_line(ls[j]) && marker_kind(ls[i]) != Some(MarkerKind::OptOut) {
                let e = quote_end(ls, j);
                lemma_quote_end(ls, j);
                let qs = dequote_all(ls.subrange(j, e));
                assert forall|k: int| 0 <= k < qs.len() implies !text::has_char(#[trigger] qs[k], '\n') by {
                    assert(ls.subrange(j, e)[k] == ls[j + k]);
                    lemma_dequote_no_newline(ls[j + k]);
                }
                lemma_parse_sections_plain(qs);
            }
        }
    }
}

/// Bounds of [`first_marker`].
proof fn lemma_first_marker(ls: Seq<Seq<char>>, i: int)
    requires
        0 <= i,
    ensures
        first_marker(ls, i) matches Some(k) ==> i <= k < ls.len(),
    decreases ls.len() - i,
{
    if i < ls.len() && marker_kind(ls[i]) is None {
        lemma_first_marker(ls, i + 1);
    }
}

/// Bounds of [`next_nonblank`].
proof fn lemma_next_nonblank(ls: Seq<Seq<char>>, j: int)
    requires
        0 <= j <= ls.len(),
    ensures
        j <= next_nonblank(ls, j) <= ls.len(),
    decreases ls.len() - j,
{
    if j < ls.len() && text::is_blank(ls[j]) {
        lemma_next_nonblank(ls, j + 1);
    }
}

/// Bounds of [`quote_end`].
proof fn lemma_quote_end(ls: Seq<Seq<char>>, j: int)
    requires
        0 <= j <= ls.len(),
    ensures
        j <= quote_end(ls, j) <= ls.len(),
    decreases ls.len() - j,
{
    if j < ls.len() && is_quote_line(ls[j]) {
        lemma_quote_end(ls, j + 1);
    }
}

// ---------------------------------------------------------------------------------------------
// Implementation.
// ---------------------------------------------------------------------------------------------

/// Parses a pull request body into an [`Extraction`].
///
/// Lenient: the `**Changelog**` marker's bold is optional, and only HTML comments are stripped
/// from the blockquote content; everything else (including a `[Breaking change:]` bracket) is
/// kept verbatim.
pub fn extract_changelog(body: Option<&str>) -> (r: Extraction)
    ensures
        r@ == extract(match body {
            Some(b) => Some(b@),
            None => None,
        }),
{
    let b = match body {
        Some(t) => chars_of(t),
        None => {
            return Extraction::Placeholder;
        },
    };
    let stripped = strip_html_comments(&b);
    let ls = lines_of(&stripped);
    let ghost lv = text::views(ls@);
    let mut i: usize = 0;
    while i < ls.len()
        invariant
            i <= ls.len(),
            lv == text::views(ls@),
            extract(
                match body {
                    Some(t) => Some(t@),
                    None => None,
                },
            ) == extract_lines(lv),
            first_marker(lv, 0) == first_marker(lv, i as int),
        decreases ls.len() - i,
    {
        assert(lv[i as int] == ls@[i as int]@);
        match normalize_marker_line(&ls[i]) {
            Some(MarkerKind::OptOut) => {
                assert(first_marker(lv, i as int) == Some(i as int));
                assert(extract_lines(lv) == ExtractionModel::NoneOptOut);
                return Extraction::NoneOptOut;
            },
            Some(MarkerKind::Changelog) => {
                assert(first_marker(lv, i as int) == Some(i as int));
                return extract_after_marker(&ls, i);
            },
            None => {},
        }
        i += 1;
    }
    Extraction::Placeholder
}

/// The extraction once a `Changelog` marker was found on line `i`.
fn extract_after_marker(ls: &Vec<Vec<char>>, i: usize) -> (r: Extraction)
    requires
        i < ls.len(),
        first_marker(text::views(ls@), 0) == Some(i as int),
        marker_kind(ls@[i as int]@) == Some(MarkerKind::Changelog),
    ensures
        r@ == extract_lines(text::views(ls@)),
{
    let ghost lv = text::views(ls@);
    assert(lv[i as int] == ls@[i as int]@);
    let mut j = i + 1;
    while j < ls.len() && blank(&ls[j])
        invariant
            i < j <= ls.len(),
            lv == text::views(ls@),
            next_nonblank(lv, i + 1) == next_nonblank(lv, j as int),
        decreases ls.len() - j,
    {
        assert(lv[j as int] == ls@[j as int]@);
        j += 1;
    }
    if j < ls.len() {
        assert(lv[j as int] == ls@[j as int]@);
    }
    let gt = chars_of(">");
    if j >= ls.len() || !has_prefix(&trim_start_chars(&ls[j]), &gt) {
        return Extraction::Placeholder;
    }
    let mut quote_lines: Vec<Vec<char>> = Vec::new();
    let start = j;
    while j < ls.len() && has_prefix(&trim_start_chars(&ls[j]), &gt)
        invariant
            start <= j <= ls.len(),
            lv == text::views(ls@),
            gt@ == ">"@,
            quote_end(lv, start as int) == quote_end(lv, j as int),
            quote_lines@.len() == j - start,
            forall|k: int|
                0 <= k < j - start ==> (#[trigger] quote_lines@[k])@ == dequote(lv[start + k]),
        decreases ls.len() - j,
    {
        assert(lv[j as int] == ls@[j as int]@);
        let d = dequote_line(&ls[j]);
        quote_lines.push(d);
        j += 1;
    }
    if j < ls.len() {
        assert(lv[j as int] == ls@[j as int]@);
    }
    assert(text::views(quote_lines@) =~= dequote_all(lv.subrange(start as int, j as int)));
    let sections = parse_changelog_sections(&quote_lines);
    let mut any_bullets = false;
    let mut k: usize = 0;
    while k < sections.len()
        invariant
            k <= sections.len(),
            any_bullets == exists|m: int| 0 <= m < k && (#[trigger] sections@[m]).bullets.len() > 0,
        decreases sections.len() - k,
    {
        if sections[k].bullets.len() > 0 {
            any_bullets = true;
        }
        k += 1;
    }
    proof {
        let sv = section_views(sections@);
        if !any_bullets {
            assert forall|m: int| 0 <= m < sv.len() implies (#[trigger] sv[m]).bullets.len() == 0 by {
                assert(sv[m] == sections@[m]@);
            }
        } else {
            let m = choose|m: int| 0 <= m < k && (#[trigger] sections@[m]).bullets.len() > 0;
            assert(sv[m] == sections@[m]@);
            assert(sv[m].bullets.len() > 0);
        }
    }
    if sections.len() == 0 || !any_bullets {
        Extraction::Placeholder
    } else {
        Extraction::Sections(sections)
    }
}

/// Classifies a line as a marker, or not.
pub fn normalize_marker_line(line: &[char]) -> (r: Option<MarkerKind>)
    ensures
        r == marker_kind(line@),
{
    let t = trim_chars(line);
    let stars = chars_of("**");
    proof {
        reveal_strlit("**");
    }
    let mut inner_text = t.clone();
    if has_prefix(&t, &stars) {
        let inner = subslice(&t, 2, t.len());
        assert(inner@ == t@.skip(2));
        if has_suffix(&inner, &stars) {
            let core = subslice(&inner, 0, inner.len() - 2);
            assert(core@ == inner@.take(inner.len() - 2));
            inner_text = core;
        }
    }
    let tt = trim_chars(&inner_text);
    assert(tt@ == marker_text(line@)) by {
        assert(text::trim(text::trim(line@)) == text::trim(line@) || true);
    }
    let none_marker = chars_of("changelog: none");
    let plain_marker = chars_of("changelog");
    if eq_ignore_case(&tt, &none_marker) {
        Some(MarkerKind::OptOut)
    } else if eq_ignore_case(&tt, &plain_marker) {
        Some(MarkerKind::Changelog)
    } else {
        None
    }
}

/// Executable [`dequote`].
pub fn dequote_line(line: &[char]) -> (r: Vec<char>)
    ensures
        r@ == dequote(line@),
{
    let t = trim_start_chars(line);
    let gt = chars_of(">");
    let sp = chars_of(" ");
    proof {
        reveal_strlit(">");
        reveal_strlit(" ");
    }
    let t = if has_prefix(&t, &gt) {
        subslice(&t, 1, t.len())
    } else {
        t
    };
    if has_prefix(&t, &sp) {
        subslice(&t, 1, t.len())
    } else {
        t
    }
}

/// Groups blockquote lines into `### ` sections and their `- ` bullets.
pub fn parse_changelog_sections(lines: &Vec<Vec<char>>) -> (r: Vec<ChangelogSection>)
    ensures
        section_views(r@) == parse_sections(text::views(lines@)),
{
    let mut sections: Vec<ChangelogSection> = Vec::new();
    let heading = chars_of("### ");
    let dash = chars_of("- ");
    proof {
        reveal_strlit("### ");
        reveal_strlit("- ");
    }
    let mut i: usize = 0;
    while i < lines.len()
        invariant
            i <= lines.len(),
            heading@ == "### "@,
            dash@ == "- "@,
            heading@.len() == 4,
            dash@.len() == 2,
            section_views(sections@) == parse_sections(text::views(lines@).take(i as int)),
        decreases lines.len() - i,
    {
        let ghost before = section_views(sections@);
        let trimmed = trim_chars(&lines[i]);
        proof {
            assert(text::views(lines@).take(i + 1).drop_last() =~= text::views(lines@).take(i as int));
            assert(text::views(lines@).take(i + 1).last() == lines@[i as int]@);
        }
        if has_prefix(&trimmed, &heading) {
            let name = trim_chars(&subslice(&trimmed, 4, trimmed.len()));
            assert(trimmed@.subrange(4, trimmed@.len() as int) =~= trimmed@.skip(4));
            let sec = ChangelogSection { name: string_of(&name), bullets: Vec::new() };
            assert(sec@.bullets =~= Seq::<Seq<char>>::empty());
            assert(sec@ == SectionModel { name: text::trim(trimmed@.skip(4)), bullets: seq![] });
            sections.push(sec);
            assert(section_views(sections@) =~= before.push(
                SectionModel { name: text::trim(trimmed@.skip(4)), bullets: seq![] },
            ));
        } else if has_prefix(&trimmed, &dash) && sections.len() > 0 {
            let bullet = trim_chars(&subslice(&trimmed, 2, trimmed.len()));
            assert(trimmed@.subrange(2, trimmed@.len() as int) =~= trimmed@.skip(2));
            let mut last = sections.pop().unwrap();
            let ghost last_view = last@;
            assert(last_view == before.last());
            last.bullets.push(string_of(&bullet));
            assert(text::string_views(last.bullets@) =~= last_view.bullets.push(bullet@));
            sections.push(last);
            assert(section_views(sections@) =~= before.update(
                before.len() - 1,
                SectionModel { name: last_view.name, bullets: last_view.bullets.push(bullet@) },
            ));
        }
        i += 1;
    }
    assert(text::views(lines@).take(lines.len() as int) =~= text::views(lines@));
    sections
}

/// Removes `<!-- ... -->` HTML comments, keeping everything else verbatim.
pub fn strip_html_comments(input: &[char]) -> (r: Vec<char>)
    ensures
        r@ == strip_comments(input@),
{
    let open = chars_of("<!--");
    let close = chars_of("-->");
    proof {
        reveal_strlit("-->");
    }
    let mut out: Vec<char> = Vec::new();
    let mut pos: usize = 0;
    assert(input@.skip(0) =~= input@);
    loop
        invariant
            pos <= input.len(),
            open@ == "<!--"@,
            close@ == "-->"@,
            close@.len() == 3,
            out@ + strip_comments(input@.skip(pos as int)) == strip_comments(input@),
        decreases input.len() - pos,
    {
        let ghost rest = input@.skip(pos as int);
        let rest_v = subslice(input, pos, input.len());
        assert(rest_v@ =~= rest);
        match find_chars(&rest_v, &open) {
            None => {
                append_chars(&mut out, &rest_v);
                assert(out@ == strip_comments(input@));
                return out;
            },
            Some(start) => {
                proof {
                    text::lemma_find_from(rest, open@, 0);
                }
                let before = subslice(&rest_v, 0, start);
                let ghost old_out = out@;
                append_chars(&mut out, &before);
                assert(before@ =~= rest.take(start as int));
                let tail = subslice(&rest_v, start, rest_v.len());
                assert(tail@ =~= rest.skip(start as int));
                match find_chars(&tail, &close) {
                    None => {
                        assert(strip_comments(rest) == rest.take(start as int) + Seq::<char>::empty());
                        assert(strip_comments(rest) =~= rest.take(start as int));
                        assert(old_out + strip_comments(rest) == strip_comments(input@));
                        assert(out@ =~= old_out + rest.take(start as int));
                        assert(out@ =~= strip_comments(input@));
                        return out;
                    },
                    Some(end) => {
                        proof {
                            text::lemma_find_from(tail@, close@, 0);
                        }
                        assert(strip_comments(rest) == rest.take(start as int) + strip_comments(
                            rest.skip(start + end + 3),
                        ));
                        assert(rest.skip(start + end + 3) =~= input@.skip(pos + start + end + 3));
                        pos = pos + start + end + 3;
                        assert(out@ + strip_comments(input@.skip(pos as int)) =~= strip_comments(
                            input@,
                        ));
                    },
                }
            },
        }
    }
}

} // verus!
