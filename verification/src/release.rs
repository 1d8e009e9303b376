//! Release notes: the section of one version cut out of a changelog, with GitHub links to
//! people and pull requests shortened to `@login` and `#N`, and with only the reference
//! definitions that the section still uses appended.
//!
//! The Markdown is parsed by `pulldown_cmark`; positions are byte offsets into the text, as
//! the parser reports them.

use crate::numbers;
use crate::text::{
    self, append_chars, chars_eq, chars_of, find_chars, string_of, subslice, to_lowercase,
    trim_chars, trim_end_chars,
};
use pulldown_cmark::{Event, HeadingLevel, Parser, Tag, TagEnd};
use MarkdownEventKind as Kind;
use vstd::prelude::*;
use vstd::utf8::*;

verus! {

// ---------------------------------------------------------------------------------------------
// Parser output.
// ---------------------------------------------------------------------------------------------

/// The kinds of parser event that the extraction tells apart.
#[derive(Clone, Copy, Debug, PartialEq, Eq, Structural)]
pub enum MarkdownEventKind {
    /// The start of a level-two heading.
    SecondLevelHeadingStart,
    /// The end of a heading of any level.
    HeadingEnd,
    /// The start of a link.
    LinkStart,
    /// The end of a link.
    LinkEnd,
    /// Anything else.
    Other,
}

/// A parser event with its byte range in the text. `dest_url` and `id` are the link's
/// destination and reference label; they are empty for other events.
#[derive(Clone, Debug)]
pub struct MarkdownEvent {
    pub kind: MarkdownEventKind,
    pub start: usize,
    pub end: usize,
    pub dest_url: String,
    pub id: String,
}

/// A link reference definition: its label and the byte range of its source.
#[derive(Clone, Debug)]
pub struct ReferenceDefinition {
    pub label: String,
    pub start: usize,
    pub end: usize,
}

/// The model of an event.
pub open spec fn event_view(e: MarkdownEvent) -> (
    MarkdownEventKind,
    usize,
    usize,
    Seq<char>,
    Seq<char>,
) {
    (e.kind, e.start, e.end, e.dest_url@, e.id@)
}

/// The models of a list of events.
pub open spec fn event_views(v: Seq<MarkdownEvent>) -> Seq<
    (MarkdownEventKind, usize, usize, Seq<char>, Seq<char>),
> {
    v.map_values(|e: MarkdownEvent| event_view(e))
}

/// The models of a list of reference definitions.
pub open spec fn definition_views(v: Seq<ReferenceDefinition>) -> Seq<(Seq<char>, usize, usize)> {
    v.map_values(|d: ReferenceDefinition| (d.label@, d.start, d.end))
}

/// The events that `pulldown_cmark` yields for a text, with their byte ranges, reduced to
/// what the extraction reads.
pub uninterp spec fn markdown_events(input: Seq<char>) -> Seq<
    (MarkdownEventKind, usize, usize, Seq<char>, Seq<char>),
>;

/// The link reference definitions that `pulldown_cmark` finds in a text.
pub uninterp spec fn markdown_reference_definitions(input: Seq<char>) -> Set<
    (Seq<char>, usize, usize),
>;

/// Parses a text with `pulldown_cmark::Parser::new(..).into_offset_iter()`.
///
/// The parser is deterministic, so its events are named as a function of the text; each is
/// converted one for one, keeping its range and, for a link, its destination and label.
#[verifier::external_body]
fn parse_events(input: &str) -> (r: Vec<MarkdownEvent>)
    ensures
        event_views(r@) == markdown_events(input@),
{
    Parser::new(input).into_offset_iter().map(|(e, range)| {
        let (dest_url, id) = match &e {
            Event::Start(Tag::Link { dest_url, id, .. }) => (dest_url.to_string(), id.to_string()),
            _ => (String::new(), String::new()),
        };
        let kind = match e {
            Event::Start(Tag::Heading { level: HeadingLevel::H2, .. }) => Kind::SecondLevelHeadingStart,
            Event::End(TagEnd::Heading(_)) => Kind::HeadingEnd,
            Event::Start(Tag::Link { .. }) => Kind::LinkStart,
            Event::End(TagEnd::Link) => Kind::LinkEnd,
            _ => Kind::Other,
        };
        MarkdownEvent { kind, start: range.start, end: range.end, dest_url, id }
    }).collect()
}

/// The link reference definitions of a text, from
/// `pulldown_cmark::Parser::new(..).reference_definitions().iter()`.
///
/// The parser keeps them in a `HashMap`, whose walk order changes from process to process:
/// the contract names the set of `(label, start, end)` triples and says that each comes
/// once; the order is left open.
#[verifier::external_body]
fn parse_reference_definitions(input: &str) -> (r: Vec<ReferenceDefinition>)
    ensures
        definition_views(r@).to_set() == markdown_reference_definitions(input@),
        definition_views(r@).no_duplicates(),
{
    Parser::new(input).reference_definitions().iter().map(|(label, def)| ReferenceDefinition {
        label: label.to_string(),
        start: def.span.start,
        end: def.span.end,
    }).collect()
}

// ---------------------------------------------------------------------------------------------
// Byte ranges of the text.
// ---------------------------------------------------------------------------------------------

/// Whether `lo..hi` is a range of the text's UTF-8 bytes that starts and ends on character
/// boundaries (what slicing a `str` accepts).
pub open spec fn valid_range(s: Seq<char>, lo: int, hi: int) -> bool {
    &&& lo <= hi
    &&& is_char_boundary(encode_utf8(s), lo)
    &&& is_char_boundary(encode_utf8(s), hi)
}

/// The characters of the text's bytes `lo..hi`.
pub open spec fn piece(s: Seq<char>, lo: int, hi: int) -> Seq<char> {
    decode_utf8(encode_utf8(s).subrange(lo, hi))
}

/// A boundary of a valid text stays a boundary of any prefix that ends on a boundary.
proof fn lemma_boundary_of_prefix(b: Seq<u8>, lo: int, hi: int)
    requires
        valid_utf8(b),
        lo <= hi,
        is_char_boundary(b, lo),
        is_char_boundary(b, hi),
    ensures
        hi <= b.len(),
        valid_utf8(b.subrange(0, hi)),
        is_char_boundary(b.subrange(0, hi), lo),
{
    valid_utf8_split(b, hi);
    let p = b.subrange(0, hi);
    is_char_boundary_start_end_of_seq(p);
    if 0 < lo && lo < hi {
        is_char_boundary_iff_not_is_continuation_byte(b, lo);
        is_char_boundary_iff_not_is_continuation_byte(p, lo);
        assert(p[lo] == b[lo]);
    }
}

/// The characters of the text's bytes `lo..hi`, or `None` where slicing would panic.
fn byte_piece(input: &str, lo: usize, hi: usize) -> (r: Option<Vec<char>>)
    ensures
        r is Some <==> valid_range(input@, lo as int, hi as int),
        r matches Some(p) ==> p@ == piece(input@, lo as int, hi as int),
{
    if lo <= hi && input.is_char_boundary(lo) && input.is_char_boundary(hi) {
        let ghost b = encode_utf8(input@);
        proof {
            encode_utf8_valid_utf8(input@);
            lemma_boundary_of_prefix(b, lo as int, hi as int);
        }
        let (head, _) = input.split_at(hi);
        let (_, mid) = head.split_at(lo);
        proof {
            assert(encode_utf8(mid@) =~= b.subrange(lo as int, hi as int));
            encode_utf8_decode_utf8(mid@);
        }
        Some(chars_of(mid))
    } else {
        None
    }
}

// ---------------------------------------------------------------------------------------------
// Specification: scanning the events.
// ---------------------------------------------------------------------------------------------

/// What the scan of the events has gathered so far.
pub struct ScanModel {
    /// Inside the body of the matching section.
    pub in_section: bool,
    /// Inside the matching section's heading.
    pub in_header: bool,
    /// A level-two heading containing the version was seen.
    pub found: bool,
    /// The section's byte range.
    pub section_start: usize,
    pub section_end: usize,
    /// The reference labels of links that stay as they are.
    pub used: Seq<Seq<char>>,
    /// The last link was shortened and has not ended yet.
    pub in_rewritten_link: bool,
    /// The last shortened link ended; the next event's start ends its replaced range.
    pub next_ends_rewrite: bool,
    /// Byte ranges to replace, with their replacements.
    pub rewrites: Seq<(usize, usize, Seq<char>)>,
}

/// Where a scan stands after some events.
pub enum ScanOutcome {
    Running(ScanModel),
    /// A second level-two heading containing the version: there is no single section.
    Duplicate,
    /// An event range that the text cannot be sliced at.
    Fault,
}

/// The state before the first event: the section would run to the end of the text.
pub open spec fn initial_scan(input: Seq<char>) -> ScanModel {
    ScanModel {
        in_section: false,
        in_header: false,
        found: false,
        section_start: 0,
        section_end: encode_utf8(input).len() as usize,
        used: seq![],
        in_rewritten_link: false,
        next_ends_rewrite: false,
        rewrites: seq![],
    }
}

/// A pending shortened link always has its entry among the rewrites.
pub open spec fn scan_wf(st: ScanModel) -> bool {
    (st.in_rewritten_link || st.next_ends_rewrite) ==> st.rewrites.len() > 0
}

/// The visible title of a link's source `[title](..)`: the text after a leading `[` up to
/// the first `]`.
pub open spec fn link_title(p: Seq<char>) -> Option<Seq<char>> {
    if p.len() > 0 && p[0] == '[' {
        match text::find(p.drop_first(), seq![']']) {
            Some(k) => Some(p.drop_first().take(k)),
            None => None,
        }
    } else {
        None
    }
}

/// The short form of a link whose (trimmed) title is `@login` with a destination ending in
/// that login (ignoring case), or `#N` (ASCII digits) with a destination ending in `N`.
pub open spec fn shortened_link(title: Seq<char>, dest: Seq<char>) -> Option<Seq<char>> {
    let t = text::trim(title);
    if t.len() > 0 && t[0] == '@' && text::ends_with(
        text::lowercase(dest),
        text::lowercase(t.drop_first()),
    ) {
        Some(t)
    } else if t.len() > 0 && t[0] == '#' && numbers::all_digits(t.drop_first()) && text::ends_with(
        dest,
        t.drop_first(),
    ) {
        Some(t)
    } else {
        None
    }
}

/// One event of the scan.
pub open spec fn scan_step(
    input: Seq<char>,
    version: Seq<char>,
    st: ScanModel,
    e: (MarkdownEventKind, usize, usize, Seq<char>, Seq<char>),
) -> ScanOutcome {
    let (kind, s, t, dest, id) = e;
    if kind == MarkdownEventKind::SecondLevelHeadingStart {
        if !valid_range(input, s as int, t as int) {
            ScanOutcome::Fault
        } else if text::find(piece(input, s as int, t as int), version) is Some {
            if st.found {
                ScanOutcome::Duplicate
            } else {
                ScanOutcome::Running(ScanModel { found: true, section_start: t, in_header: true, ..st })
            }
        } else {
            ScanOutcome::Running(
                ScanModel {
                    section_end: if st.in_section {
                        s
                    } else {
                        st.section_end
                    },
                    in_section: false,
                    ..st
                },
            )
        }
    } else if kind == MarkdownEventKind::HeadingEnd && st.in_header {
        ScanOutcome::Running(ScanModel { in_header: false, in_section: true, ..st })
    } else if kind == MarkdownEventKind::LinkStart && st.in_section {
        if !valid_range(input, s as int, t as int) {
            ScanOutcome::Fault
        } else {
            match link_title(piece(input, s as int, t as int)) {
                None => ScanOutcome::Running(st),
                Some(title) => match shortened_link(title, dest) {
                    Some(short) => ScanOutcome::Running(
                        ScanModel {
                            rewrites: st.rewrites.push((s, t, short)),
                            in_rewritten_link: true,
                            ..st
                        },
                    ),
                    None => if id.len() > 0 {
                        ScanOutcome::Running(ScanModel { used: st.used.push(id), ..st })
                    } else {
                        ScanOutcome::Running(st)
                    },
                },
            }
        }
    } else if kind == MarkdownEventKind::LinkEnd && st.in_rewritten_link {
        ScanOutcome::Running(ScanModel { next_ends_rewrite: true, in_rewritten_link: false, ..st })
    } else if st.next_ends_rewrite {
        let last = st.rewrites.last();
        ScanOutcome::Running(
            ScanModel {
                rewrites: st.rewrites.drop_last().push((last.0, s, last.2)),
                next_ends_rewrite: false,
                ..st
            },
        )
    } else {
        ScanOutcome::Running(st)
    }
}

/// The scan of a list of events, stopping at the first duplicate heading or fault.
pub open spec fn scan(
    input: Seq<char>,
    version: Seq<char>,
    events: Seq<(MarkdownEventKind, usize, usize, Seq<char>, Seq<char>)>,
) -> ScanOutcome
    decreases events.len(),
{
    if events.len() == 0 {
        ScanOutcome::Running(initial_scan(input))
    } else {
        match scan(input, version, events.drop_last()) {
            ScanOutcome::Running(st) => scan_step(input, version, st, events.last()),
            other => other,
        }
    }
}

/// A step keeps a pending shortened link's entry in place.
proof fn lemma_scan_step_wf(
    input: Seq<char>,
    version: Seq<char>,
    st: ScanModel,
    e: (MarkdownEventKind, usize, usize, Seq<char>, Seq<char>),
)
    requires
        scan_wf(st),
    ensures
        scan_step(input, version, st, e) matches ScanOutcome::Running(n) ==> scan_wf(n),
{
}

// ---------------------------------------------------------------------------------------------
// Implementation: scanning the events.
// ---------------------------------------------------------------------------------------------

/// What the scan has gathered so far.
struct Scan {
    in_section: bool,
    in_header: bool,
    found: bool,
    section_start: usize,
    section_end: usize,
    used: Vec<Vec<char>>,
    in_rewritten_link: bool,
    next_ends_rewrite: bool,
    rewrites: Vec<(usize, usize, Vec<char>)>,
}

/// The models of replacement entries.
pub open spec fn rewrite_views(v: Seq<(usize, usize, Vec<char>)>) -> Seq<(usize, usize, Seq<char>)> {
    v.map_values(|r: (usize, usize, Vec<char>)| (r.0, r.1, r.2@))
}

impl View for Scan {
    type V = ScanModel;

    closed spec fn view(&self) -> ScanModel {
        ScanModel {
            in_section: self.in_section,
            in_header: self.in_header,
            found: self.found,
            section_start: self.section_start,
            section_end: self.section_end,
            used: text::views(self.used@),
            in_rewritten_link: self.in_rewritten_link,
            next_ends_rewrite: self.next_ends_rewrite,
            rewrites: rewrite_views(self.rewrites@),
        }
    }
}

/// How a step of the scan ended.
#[derive(PartialEq, Eq, Structural)]
enum StepResult {
    Running,
    Duplicate,
    Fault,
}

/// The visible title of a link's source.
fn link_title_of(p: &[char]) -> (r: Option<Vec<char>>)
    ensures
        r matches Some(t) ==> link_title(p@) == Some(t@),
        r is None ==> link_title(p@) is None,
{
    if p.len() > 0 && p[0] == '[' {
        let rest = subslice(p, 1, p.len());
        assert(rest@ =~= p@.drop_first());
        let close = vec![']'];
        assert(close@ =~= seq![']']);
        match find_chars(&rest, &close) {
            Some(k) => {
                proof {
                    text::lemma_find_from(rest@, close@, 0);
                }
                let t = subslice(&rest, 0, k);
                assert(t@ =~= rest@.take(k as int));
                Some(t)
            },
            None => None,
        }
    } else {
        None
    }
}

/// The short form of a link, if it has one.
fn shortened_link_of(title: &[char], dest: &str) -> (r: Option<Vec<char>>)
    ensures
        r matches Some(t) ==> shortened_link(title@, dest@) == Some(t@),
        r is None ==> shortened_link(title@, dest@) is None,
{
    let t = trim_chars(title);
    if t.len() > 0 && t[0] == '@' {
        let user = subslice(&t, 1, t.len());
        assert(user@ =~= t@.drop_first());
        let dest_lower = chars_of(to_lowercase(dest).as_str());
        let user_lower = chars_of(to_lowercase(string_of(&user).as_str()).as_str());
        if text::has_suffix(&dest_lower, &user_lower) {
            return Some(t);
        }
    }
    if t.len() > 0 && t[0] == '#' {
        let issue = subslice(&t, 1, t.len());
        assert(issue@ =~= t@.drop_first());
        if numbers::all_digit_chars(&issue) && text::has_suffix(&chars_of(dest), &issue) {
            return Some(t);
        }
    }
    None
}

/// Feeds one event to the scan.
fn scan_event(st: &mut Scan, input: &str, version: &[char], e: &MarkdownEvent) -> (r: StepResult)
    requires
        scan_wf(old(st)@),
    ensures
        match scan_step(input@, version@, old(st)@, event_view(*e)) {
            ScanOutcome::Running(n) => r == StepResult::Running && final(st)@ == n,
            ScanOutcome::Duplicate => r == StepResult::Duplicate,
            ScanOutcome::Fault => r == StepResult::Fault,
        },
{
    let ghost before = st@;
    if e.kind == MarkdownEventKind::SecondLevelHeadingStart {
        let p = match byte_piece(input, e.start, e.end) {
            Some(p) => p,
            None => {
                return StepResult::Fault;
            },
        };
        if find_chars(&p, version).is_some() {
            if st.found {
                return StepResult::Duplicate;
            }
            st.found = true;
            st.section_start = e.end;
            st.in_header = true;
        } else {
            if st.in_section {
                st.section_end = e.start;
            }
            st.in_section = false;
        }
        StepResult::Running
    } else if e.kind == MarkdownEventKind::HeadingEnd && st.in_header {
        st.in_header = false;
        st.in_section = true;
        StepResult::Running
    } else if e.kind == MarkdownEventKind::LinkStart && st.in_section {
        let p = match byte_piece(input, e.start, e.end) {
            Some(p) => p,
            None => {
                return StepResult::Fault;
            },
        };
        let title = match link_title_of(&p) {
            Some(t) => t,
            None => {
                return StepResult::Running;
            },
        };
        match shortened_link_of(&title, e.dest_url.as_str()) {
            Some(short) => {
                let ghost sv = short@;
                st.rewrites.push((e.start, e.end, short));
                st.in_rewritten_link = true;
                assert(rewrite_views(st.rewrites@) =~= before.rewrites.push((e.start, e.end, sv)));
            },
            None => {
                let id = chars_of(e.id.as_str());
                if id.len() > 0 {
                    let ghost iv = id@;
                    st.used.push(id);
                    assert(text::views(st.used@) =~= before.used.push(iv));
                }
            },
        }
        StepResult::Running
    } else if e.kind == MarkdownEventKind::LinkEnd && st.in_rewritten_link {
        st.next_ends_rewrite = true;
        st.in_rewritten_link = false;
        StepResult::Running
    } else if st.next_ends_rewrite {
        let last = st.rewrites.pop().unwrap();
        let ghost lv = last.2@;
        assert(rewrite_views(st.rewrites@) =~= before.rewrites.drop_last());
        st.rewrites.push((last.0, e.start, last.2));
        assert(rewrite_views(st.rewrites@) =~= before.rewrites.drop_last().push(
            (before.rewrites.last().0, e.start, before.rewrites.last().2),
        ));
        st.next_ends_rewrite = false;
        StepResult::Running
    } else {
        StepResult::Running
    }
}

/// Once a scan stops, later events change nothing.
proof fn lemma_scan_stops(
    input: Seq<char>,
    version: Seq<char>,
    events: Seq<(MarkdownEventKind, usize, usize, Seq<char>, Seq<char>)>,
    i: int,
)
    requires
        0 <= i <= events.len(),
        !(scan(input, version, events.take(i)) is Running),
    ensures
        scan(input, version, events) == scan(input, version, events.take(i)),
    decreases events.len(),
{
    if i == events.len() {
        assert(events.take(i) =~= events);
    } else {
        assert(events.drop_last().take(i) =~= events.take(i));
        lemma_scan_stops(input, version, events.drop_last(), i);
    }
}

// ---------------------------------------------------------------------------------------------
// Specification: assembling the section.
// ---------------------------------------------------------------------------------------------

/// The first entry at or after `i` that starts after `k`.
pub open spec fn start_pos(s: Seq<(usize, usize, Seq<char>)>, k: usize, i: int) -> int
    decreases s.len() - i,
{
    if i < 0 || i >= s.len() {
        s.len() as int
    } else if s[i].0 > k {
        i
    } else {
        start_pos(s, k, i + 1)
    }
}

/// `s` with `x` inserted after every entry that does not start later.
pub open spec fn insert_by_start(s: Seq<(usize, usize, Seq<char>)>, x: (usize, usize, Seq<char>)) -> Seq<
    (usize, usize, Seq<char>),
> {
    s.insert(start_pos(s, x.0, 0), x)
}

/// The entries stably sorted by start (`sort_by_key`).
pub open spec fn sort_by_start(s: Seq<(usize, usize, Seq<char>)>) -> Seq<(usize, usize, Seq<char>)>
    decreases s.len(),
{
    if s.len() == 0 {
        s
    } else {
        insert_by_start(sort_by_start(s.drop_last()), s.last())
    }
}

/// Reference definitions as ranges to drop.
pub open spec fn definition_removals(defs: Seq<(Seq<char>, usize, usize)>) -> Seq<
    (usize, usize, Seq<char>),
> {
    defs.map_values(|d: (Seq<char>, usize, usize)| (d.1, d.2, Seq::<char>::empty()))
}

/// The section text with the replacements applied, from byte `cursor` on, and the byte at
/// which the copying stopped; `None` where a slice would panic or replacements overlap after
/// one was applied. A replacement that starts before the cursor is skipped while none has
/// been applied yet; one that starts after the section's end stops the copying.
pub open spec fn assemble(
    input: Seq<char>,
    rw: Seq<(usize, usize, Seq<char>)>,
    section_end: int,
    cursor: int,
    started: bool,
) -> Option<(Seq<char>, int)>
    decreases rw.len(),
{
    if rw.len() == 0 {
        Some((Seq::<char>::empty(), cursor))
    } else {
        let (s, t, txt) = rw[0];
        if s < cursor {
            if started {
                None
            } else {
                assemble(input, rw.drop_first(), section_end, cursor, false)
            }
        } else if s > section_end {
            Some((Seq::<char>::empty(), cursor))
        } else if !valid_range(input, cursor, s as int) {
            None
        } else {
            match assemble(input, rw.drop_first(), section_end, t as int, true) {
                Some((out, c)) => Some((piece(input, cursor, s as int) + txt + out, c)),
                None => None,
            }
        }
    }
}

/// The definitions whose labels the kept links use, in the given order.
pub open spec fn needed_definitions(defs: Seq<(Seq<char>, usize, usize)>, used: Seq<Seq<char>>) -> Seq<
    (Seq<char>, usize, usize),
>
    decreases defs.len(),
{
    if defs.len() == 0 {
        defs
    } else {
        let before = needed_definitions(defs.drop_last(), used);
        if used.contains(defs.last().0) {
            before.push(defs.last())
        } else {
            before
        }
    }
}

/// The source lines of definitions, each without trailing whitespace and ended by a newline;
/// `None` where a slice would panic.
pub open spec fn definition_lines(input: Seq<char>, defs: Seq<(Seq<char>, usize, usize)>) -> Option<
    Seq<char>,
>
    decreases defs.len(),
{
    if defs.len() == 0 {
        Some(Seq::<char>::empty())
    } else {
        match definition_lines(input, defs.drop_last()) {
            Some(t) => {
                let d = defs.last();
                if valid_range(input, d.1 as int, d.2 as int) {
                    Some(t + text::trim_end(piece(input, d.1 as int, d.2 as int)) + seq!['\n'])
                } else {
                    None
                }
            },
            None => None,
        }
    }
}

/// What extracting a version's section gives.
pub enum SectionOutcome {
    /// The parser's ranges cannot be used on the text.
    Fault,
    /// No section, or more than one, is headed by the version.
    Absent,
    Found(Seq<char>),
}

/// The release notes of `version`, from the parser's events and reference definitions (in
/// the order given).
///
/// The section runs from the end of the first level-two heading that contains the version
/// to the start of the next level-two heading (or the end of the text). In it, shortened
/// links replace their source up to the start of the event after the link, reference
/// definitions are dropped, and trailing whitespace is removed. The definitions that the
/// remaining reference links use follow after a blank line, one per line; the text ends
/// with a newline.
pub open spec fn section_outcome(
    input: Seq<char>,
    version: Seq<char>,
    events: Seq<(MarkdownEventKind, usize, usize, Seq<char>, Seq<char>)>,
    defs: Seq<(Seq<char>, usize, usize)>,
) -> SectionOutcome {
    match scan(input, version, events) {
        ScanOutcome::Fault => SectionOutcome::Fault,
        ScanOutcome::Duplicate => SectionOutcome::Absent,
        ScanOutcome::Running(st) => if !st.found {
            SectionOutcome::Absent
        } else {
            let rw = sort_by_start(st.rewrites + definition_removals(defs));
            match assemble(input, rw, st.section_end as int, st.section_start as int, false) {
                None => SectionOutcome::Fault,
                Some((out, cursor)) => if !valid_range(input, cursor, st.section_end as int) {
                    SectionOutcome::Fault
                } else {
                    let body = text::trim_end(out + piece(input, cursor, st.section_end as int));
                    let needed = needed_definitions(defs, st.used);
                    if needed.len() == 0 {
                        SectionOutcome::Found(body + seq!['\n'])
                    } else {
                        match definition_lines(input, needed) {
                            Some(lines) => SectionOutcome::Found(body + seq!['\n', '\n'] + lines),
                            None => SectionOutcome::Fault,
                        }
                    }
                },
            }
        },
    }
}

/// The definitions needed from a prefix are a prefix of those needed from the whole list.
proof fn lemma_needed_prefix(defs: Seq<(Seq<char>, usize, usize)>, k: int, used: Seq<Seq<char>>)
    requires
        0 <= k <= defs.len(),
    ensures
        needed_definitions(defs.take(k), used).len() <= needed_definitions(defs, used).len(),
        needed_definitions(defs, used).take(needed_definitions(defs.take(k), used).len() as int)
            == needed_definitions(defs.take(k), used),
    decreases defs.len(),
{
    let whole = needed_definitions(defs, used);
    if k == defs.len() {
        assert(defs.take(k) =~= defs);
        assert(whole.take(whole.len() as int) =~= whole);
    } else {
        assert(defs.drop_last().take(k) =~= defs.take(k));
        lemma_needed_prefix(defs.drop_last(), k, used);
        let part = needed_definitions(defs.take(k), used);
        let before = needed_definitions(defs.drop_last(), used);
        if used.contains(defs.last().0) {
            assert(before.push(defs.last()).take(part.len() as int) =~= before.take(part.len() as int));
        }
    }
}

/// A definition line that cannot be sliced spoils every longer list of lines.
proof fn lemma_lines_fault_extends(
    input: Seq<char>,
    a: Seq<(Seq<char>, usize, usize)>,
    b: Seq<(Seq<char>, usize, usize)>,
)
    requires
        a.len() <= b.len(),
        b.take(a.len() as int) == a,
        definition_lines(input, a) is None,
    ensures
        definition_lines(input, b) is None,
    decreases b.len(),
{
    if b.len() == a.len() {
        assert(b.take(a.len() as int) =~= b);
    } else {
        assert(b.drop_last().take(a.len() as int) =~= b.take(a.len() as int));
        lemma_lines_fault_extends(input, a, b.drop_last());
    }
}

/// A fault in the lines of the definitions needed from a prefix is a fault of the whole.
proof fn lemma_definition_lines_fault(
    input: Seq<char>,
    defs: Seq<(Seq<char>, usize, usize)>,
    k: int,
    used: Seq<Seq<char>>,
)
    requires
        0 <= k <= defs.len(),
        definition_lines(input, needed_definitions(defs.take(k), used)) is None,
    ensures
        definition_lines(input, needed_definitions(defs, used)) is None,
{
    lemma_needed_prefix(defs, k, used);
    lemma_lines_fault_extends(
        input,
        needed_definitions(defs.take(k), used),
        needed_definitions(defs, used),
    );
}

/// Release notes always end with a newline.
pub proof fn lemma_section_ends_with_newline(
    input: Seq<char>,
    version: Seq<char>,
    events: Seq<(MarkdownEventKind, usize, usize, Seq<char>, Seq<char>)>,
    defs: Seq<(Seq<char>, usize, usize)>,
)
    ensures
        section_outcome(input, version, events, defs) matches SectionOutcome::Found(t) ==> t.len() > 0
            && t.last() == '\n',
{
    if let ScanOutcome::Running(st) = scan(input, version, events) {
        if st.found {
            let rw = sort_by_start(st.rewrites + definition_removals(defs));
            if let Some((out, cursor)) = assemble(input, rw, st.section_end as int, st.section_start as int, false) {
                let needed = needed_definitions(defs, st.used);
                if needed.len() > 0 {
                    lemma_definition_lines_end(input, needed);
                }
            }
        }
    }
}

/// Definition lines end with a newline.
proof fn lemma_definition_lines_end(input: Seq<char>, defs: Seq<(Seq<char>, usize, usize)>)
    requires
        defs.len() > 0,
    ensures
        definition_lines(input, defs) matches Some(t) ==> t.len() > 0 && t.last() == '\n',
{
}

// ---------------------------------------------------------------------------------------------
// Implementation: assembling the section.
// ---------------------------------------------------------------------------------------------

/// Why a section cannot be extracted from the parser's output.
#[derive(Clone, Copy, Debug, PartialEq, Eq, Structural)]
pub enum ExtractFault {
    /// A range does not lie on character boundaries of the text, or replacements overlap.
    InconsistentRanges,
}

/// [`start_pos`] stays within bounds.
proof fn lemma_start_pos(s: Seq<(usize, usize, Seq<char>)>, k: usize, i: int)
    requires
        0 <= i <= s.len(),
    ensures
        i <= start_pos(s, k, i) <= s.len(),
    decreases s.len() - i,
{
    if i < s.len() && s[i].0 <= k {
        lemma_start_pos(s, k, i + 1);
    }
}

/// The first entry that starts after `k`.
fn start_position(s: &Vec<(usize, usize, Vec<char>)>, k: usize) -> (r: usize)
    ensures
        r as int == start_pos(rewrite_views(s@), k, 0),
{
    let ghost sv = rewrite_views(s@);
    let mut i: usize = 0;
    while i < s.len()
        invariant
            i <= s.len(),
            sv == rewrite_views(s@),
            start_pos(sv, k, 0) == start_pos(sv, k, i as int),
        decreases s.len() - i,
    {
        assert(sv[i as int].0 == s@[i as int].0);
        if s[i].0 > k {
            return i;
        }
        i += 1;
    }
    i
}

/// The entries stably sorted by start.
fn sort_rewrites(es: &Vec<(usize, usize, Vec<char>)>) -> (r: Vec<(usize, usize, Vec<char>)>)
    ensures
        rewrite_views(r@) == sort_by_start(rewrite_views(es@)),
{
    let ghost ev = rewrite_views(es@);
    let mut r: Vec<(usize, usize, Vec<char>)> = Vec::new();
    let mut i: usize = 0;
    assert(ev.take(0) =~= Seq::<(usize, usize, Seq<char>)>::empty());
    while i < es.len()
        invariant
            i <= es.len(),
            ev == rewrite_views(es@),
            rewrite_views(r@) == sort_by_start(ev.take(i as int)),
        decreases es.len() - i,
    {
        let ghost before = rewrite_views(r@);
        let pos = start_position(&r, es[i].0);
        proof {
            lemma_start_pos(before, es@[i as int].0, 0);
        }
        let item = (es[i].0, es[i].1, subslice(&es[i].2, 0, es[i].2.len()));
        assert(item.2@ =~= es@[i as int].2@);
        assert(ev[i as int] == (item.0, item.1, item.2@));
        r.insert(pos, item);
        proof {
            assert(ev.take(i + 1).drop_last() =~= ev.take(i as int));
            assert(ev.take(i + 1).last() == ev[i as int]);
            assert(rewrite_views(r@) =~= before.insert(pos as int, (item.0, item.1, item.2@)));
        }
        i += 1;
    }
    assert(ev.take(es.len() as int) =~= ev);
    r
}

/// Copies the section from byte `start`, applying the sorted replacements.
fn assemble_section(
    input: &str,
    rw: &Vec<(usize, usize, Vec<char>)>,
    section_end: usize,
    start: usize,
) -> (r: Option<(Vec<char>, usize)>)
    ensures
        match assemble(input@, rewrite_views(rw@), section_end as int, start as int, false) {
            Some((o, c)) => r matches Some(x) && x.0@ == o && x.1 == c,
            None => r is None,
        },
{
    let ghost rv = rewrite_views(rw@);
    let ghost total = assemble(input@, rv, section_end as int, start as int, false);
    let mut out: Vec<char> = Vec::new();
    let mut cursor = start;
    let mut started = false;
    let mut i: usize = 0;
    assert(rv.skip(0) =~= rv);
    assert(out@ + Seq::<char>::empty() =~= out@);
    while i < rw.len()
        invariant
            i <= rw.len(),
            rv == rewrite_views(rw@),
            total == assemble(input@, rv, section_end as int, start as int, false),
            match assemble(input@, rv.skip(i as int), section_end as int, cursor as int, started) {
                Some((o, c)) => total == Some((out@ + o, c)),
                None => total is None,
            },
        decreases rw.len() - i,
    {
        let ghost rest = rv.skip(i as int);
        assert(rest[0] == rv[i as int]);
        assert(rest.drop_first() =~= rv.skip(i + 1));
        assert(rv[i as int] == (rw@[i as int].0, rw@[i as int].1, rw@[i as int].2@));
        let s = rw[i].0;
        let t = rw[i].1;
        if s < cursor {
            if started {
                return None;
            }
        } else if s > section_end {
            assert(out@ + Seq::<char>::empty() =~= out@);
            return Some((out, cursor));
        } else {
            let p = match byte_piece(input, cursor, s) {
                Some(p) => p,
                None => {
                    return None;
                },
            };
            let ghost old_out = out@;
            append_chars(&mut out, &p);
            append_chars(&mut out, &rw[i].2);
            proof {
                match assemble(input@, rv.skip(i + 1), section_end as int, t as int, true) {
                    Some((o, c)) => {
                        assert(old_out + (p@ + rw@[i as int].2@ + o) =~= out@ + o);
                    },
                    None => {},
                }
            }
            cursor = t;
            started = true;
        }
        i += 1;
    }
    assert(rv.skip(i as int) =~= Seq::<(usize, usize, Seq<char>)>::empty());
    assert(out@ + Seq::<char>::empty() =~= out@);
    Some((out, cursor))
}

/// Whether a label is among those the kept links use.
fn label_used(used: &Vec<Vec<char>>, label: &[char]) -> (r: bool)
    ensures
        r == text::views(used@).contains(label@),
{
    let ghost uv = text::views(used@);
    let mut i: usize = 0;
    while i < used.len()
        invariant
            i <= used.len(),
            uv == text::views(used@),
            forall|k: int| 0 <= k < i ==> uv[k] != label@,
        decreases used.len() - i,
    {
        if chars_eq(&used[i], label) {
            assert(uv[i as int] == label@);
            return true;
        }
        i += 1;
    }
    false
}

/// The source lines of the definitions that the kept links use, and how many there are.
fn definitions_text(input: &str, defs: &Vec<ReferenceDefinition>, used: &Vec<Vec<char>>) -> (r: Option<
    (usize, Vec<char>),
>)
    ensures
        match definition_lines(
            input@,
            needed_definitions(definition_views(defs@), text::views(used@)),
        ) {
            Some(l) => r matches Some(x) && x.1@ == l && x.0 == needed_definitions(
                definition_views(defs@),
                text::views(used@),
            ).len(),
            None => r is None,
        },
{
    let ghost dv = definition_views(defs@);
    let ghost uv = text::views(used@);
    let mut count: usize = 0;
    let mut lines: Vec<char> = Vec::new();
    let mut k: usize = 0;
    assert(dv.take(0) =~= Seq::<(Seq<char>, usize, usize)>::empty());
    while k < defs.len()
        invariant
            k <= defs.len(),
            dv == definition_views(defs@),
            uv == text::views(used@),
            count <= k,
            count == needed_definitions(dv.take(k as int), uv).len(),
            definition_lines(input@, needed_definitions(dv.take(k as int), uv)) == Some(lines@),
        decreases defs.len() - k,
    {
        let ghost nk = needed_definitions(dv.take(k as int), uv);
        assert(dv.take(k + 1).drop_last() =~= dv.take(k as int));
        assert(dv.take(k + 1).last() == dv[k as int]);
        assert(dv[k as int] == (defs@[k as int].label@, defs@[k as int].start, defs@[k as int].end));
        let label = chars_of(defs[k].label.as_str());
        if label_used(used, &label) {
            assert(nk.push(dv[k as int]).drop_last() =~= nk);
            let p = match byte_piece(input, defs[k].start, defs[k].end) {
                Some(p) => p,
                None => {
                    proof {
                        lemma_definition_lines_fault(input@, dv, k + 1, uv);
                    }
                    return None;
                },
            };
            let ghost old_lines = lines@;
            append_chars(&mut lines, &trim_end_chars(&p));
            lines.push('\n');
            assert(lines@ =~= old_lines + text::trim_end(p@) + seq!['\n']);
            count += 1;
        }
        k += 1;
    }
    assert(dv.take(defs.len() as int) =~= dv);
    Some((count, lines))
}

/// Extracts the release notes of `version` from the parser's events and reference
/// definitions of `input`. `Ok(None)` when no single level-two heading contains the version.
pub fn extract_section(
    input: &str,
    version: &str,
    events: &Vec<MarkdownEvent>,
    defs: &Vec<ReferenceDefinition>,
) -> (r: Result<Option<String>, ExtractFault>)
    ensures
        match section_outcome(input@, version@, event_views(events@), definition_views(defs@)) {
            SectionOutcome::Fault => r == Err::<Option<String>, ExtractFault>(
                ExtractFault::InconsistentRanges,
            ),
            SectionOutcome::Absent => r == Ok::<Option<String>, ExtractFault>(None),
            SectionOutcome::Found(t) => r matches Ok(Some(x)) && x@ == t,
        },
{
    let ghost ev = event_views(events@);
    let ghost dv = definition_views(defs@);
    let vchars = chars_of(version);
    let mut st = Scan {
        in_section: false,
        in_header: false,
        found: false,
        section_start: 0,
        section_end: input.len(),
        used: Vec::new(),
        in_rewritten_link: false,
        next_ends_rewrite: false,
        rewrites: Vec::new(),
    };
    assert(st@.used =~= Seq::<Seq<char>>::empty());
    assert(st@.rewrites =~= Seq::<(usize, usize, Seq<char>)>::empty());
    assert(st@ == initial_scan(input@));
    let mut i: usize = 0;
    assert(ev.take(0) =~= Seq::<(MarkdownEventKind, usize, usize, Seq<char>, Seq<char>)>::empty());
    while i < events.len()
        invariant
            i <= events.len(),
            ev == event_views(events@),
            vchars@ == version@,
            scan(input@, version@, ev.take(i as int)) == ScanOutcome::Running(st@),
            scan_wf(st@),
        decreases events.len() - i,
    {
        assert(ev.take(i + 1).drop_last() =~= ev.take(i as int));
        assert(ev.take(i + 1).last() == event_view(events@[i as int]));
        proof {
            lemma_scan_step_wf(input@, version@, st@, ev[i as int]);
        }
        match scan_event(&mut st, input, &vchars, &events[i]) {
            StepResult::Running => {},
            StepResult::Duplicate => {
                proof {
                    lemma_scan_stops(input@, version@, ev, i + 1);
                }
                return Ok(None);
            },
            StepResult::Fault => {
                proof {
                    lemma_scan_stops(input@, version@, ev, i + 1);
                }
                return Err(ExtractFault::InconsistentRanges);
            },
        }
        i += 1;
    }
    assert(ev.take(events.len() as int) =~= ev);
    if !st.found {
        return Ok(None);
    }
    // Reference definitions are dropped from the copied text.
    let mut rw: Vec<(usize, usize, Vec<char>)> = Vec::new();
    let mut k: usize = 0;
    while k < st.rewrites.len()
        invariant
            k <= st.rewrites.len(),
            rewrite_views(rw@) == rewrite_views(st.rewrites@).take(k as int),
        decreases st.rewrites.len() - k,
    {
        let item = (st.rewrites[k].0, st.rewrites[k].1, subslice(&st.rewrites[k].2, 0, st.rewrites[k].2.len()));
        assert(item.2@ =~= st.rewrites@[k as int].2@);
        assert(rewrite_views(st.rewrites@)[k as int] == (item.0, item.1, item.2@));
        let ghost before = rewrite_views(rw@);
        let ghost iv = (item.0, item.1, item.2@);
        rw.push(item);
        assert(rewrite_views(rw@) =~= before.push(iv));
        assert(rewrite_views(st.rewrites@).take(k + 1) =~= rewrite_views(st.rewrites@).take(k as int).push(iv));
        k += 1;
    }
    assert(rewrite_views(st.rewrites@).take(st.rewrites.len() as int) =~= rewrite_views(st.rewrites@));
    let ghost base = rewrite_views(rw@);
    let mut k: usize = 0;
    while k < defs.len()
        invariant
            k <= defs.len(),
            dv == definition_views(defs@),
            rewrite_views(rw@) == base + definition_removals(dv.take(k as int)),
        decreases defs.len() - k,
    {
        let ghost before = rewrite_views(rw@);
        rw.push((defs[k].start, defs[k].end, Vec::new()));
        assert(rewrite_views(rw@) =~= before.push((defs@[k as int].start, defs@[k as int].end, Seq::<char>::empty())));
        assert(dv.take(k + 1) =~= dv.take(k as int).push(dv[k as int]));
        assert(definition_removals(dv.take(k + 1)) =~= definition_removals(dv.take(k as int)).push(
            (defs@[k as int].start, defs@[k as int].end, Seq::<char>::empty()),
        ));
        assert(rewrite_views(rw@) =~= base + definition_removals(dv.take(k + 1)));
        k += 1;
    }
    assert(dv.take(defs.len() as int) =~= dv);
    let sorted = sort_rewrites(&rw);
    let (mut out, cursor) = match assemble_section(input, &sorted, st.section_end, st.section_start) {
        Some(x) => x,
        None => {
            return Err(ExtractFault::InconsistentRanges);
        },
    };
    let tail = match byte_piece(input, cursor, st.section_end) {
        Some(p) => p,
        None => {
            return Err(ExtractFault::InconsistentRanges);
        },
    };
    append_chars(&mut out, &tail);
    let mut body = trim_end_chars(&out);
    let (count, lines) = match definitions_text(input, defs, &st.used) {
        Some(x) => x,
        None => {
            return Err(ExtractFault::InconsistentRanges);
        },
    };
    if count == 0 {
        body.push('\n');
    } else {
        body.push('\n');
        body.push('\n');
        append_chars(&mut body, &lines);
    }
    Ok(Some(string_of(&body)))
}

/// The Markdown of `version`'s section of a changelog, suitable for a GitHub release.
///
/// `None` when no level-two heading contains the version, or more than one does, or (which a
/// parser that reports its own ranges never causes) when the parser's ranges cannot be used
/// on the text. The reference definitions come from a hash map; the definitions appended to
/// the notes follow the order in which it was walked.
pub fn extract_version_section(input: &str, version: &str) -> (r: Option<String>)
    ensures
        exists|defs: Seq<(Seq<char>, usize, usize)>|
            {
                &&& defs.to_set() == markdown_reference_definitions(input@)
                &&& defs.no_duplicates()
                &&& match section_outcome(input@, version@, markdown_events(input@), defs) {
                    SectionOutcome::Found(t) => r matches Some(x) && x@ == t,
                    _ => r is None,
                }
            },
{
    let events = parse_events(input);
    let defs = parse_reference_definitions(input);
    let r = match extract_section(input, version, &events, &defs) {
        Ok(r) => r,
        Err(_) => None,
    };
    assert(definition_views(defs@).to_set() == markdown_reference_definitions(input@));
    r
}

} // verus!
