//! Merging new entries into a changelog's `## [Unreleased]` section.
//!
//! New bullets are inserted in ascending pull-request order among the existing ones; new
//! `### ` subsections are created in keep-a-changelog's canonical order. Existing lines are
//! never changed or removed: the merged line list always holds the given one as a
//! subsequence.

use crate::numbers;
use crate::subseq;
use crate::text::{
    self, append_chars, chars_eq, chars_of, find_chars, has_prefix, join_chars, lines_of,
    string_of, subslice, trim_chars, trim_start_chars,
};
use vstd::prelude::*;

verus! {

/// Why a changelog could not be updated.
#[derive(Debug, Clone, PartialEq, Eq)]
pub enum ChangelogError {
    /// The changelog has no `## [Unreleased]` heading to merge into.
    NoUnreleasedHeading,
    /// Updating the reference definitions would have dropped an existing one.
    DroppedDefinition(String),
    /// No current content was provided for a changelog file that entries route to.
    MissingContent(String),
}

/// The model of a [`ChangelogError`].
pub enum ErrorModel {
    NoUnreleasedHeading,
    DroppedDefinition(Seq<char>),
    MissingContent(Seq<char>),
}

impl View for ChangelogError {
    type V = ErrorModel;

    open spec fn view(&self) -> ErrorModel {
        match self {
            ChangelogError::NoUnreleasedHeading => ErrorModel::NoUnreleasedHeading,
            ChangelogError::DroppedDefinition(s) => ErrorModel::DroppedDefinition(s@),
            ChangelogError::MissingContent(s) => ErrorModel::MissingContent(s@),
        }
    }
}

/// The text of an error.
pub open spec fn error_message(e: ErrorModel) -> Seq<char> {
    match e {
        ErrorModel::NoUnreleasedHeading => "could not find a `## [Unreleased]` heading"@,
        ErrorModel::DroppedDefinition(d) => "refusing to drop existing reference definition `"@ + d
            + "` while updating the changelog"@,
        ErrorModel::MissingContent(f) => "no current content provided for changelog file "@ + f,
    }
}

impl ChangelogError {
    /// The text of the error, as shown to a user.
    pub fn message(&self) -> (r: String)
        ensures
            r@ == error_message(self@),
    {
        match self {
            ChangelogError::NoUnreleasedHeading => string_of(
                &chars_of("could not find a `## [Unreleased]` heading"),
            ),
            ChangelogError::DroppedDefinition(d) => {
                let mut r = chars_of("refusing to drop existing reference definition `");
                append_chars(&mut r, &chars_of(d.as_str()));
                append_chars(&mut r, &chars_of("` while updating the changelog"));
                string_of(&r)
            },
            ChangelogError::MissingContent(f) => {
                let mut r = chars_of("no current content provided for changelog file ");
                append_chars(&mut r, &chars_of(f.as_str()));
                string_of(&r)
            },
        }
    }
}

/// A line of a `## [Unreleased]` section body.
pub enum BulletLine {
    /// Any line that is not a bullet.
    Prose(Vec<char>),
    /// A `- ` bullet, with the pull-request number of its `([#N]` reference, if any.
    Bullet { pr: Option<u64>, text: Vec<char> },
}

/// The model of a [`BulletLine`].
pub enum BulletModel {
    Prose(Seq<char>),
    Bullet { pr: Option<u64>, text: Seq<char> },
}

impl View for BulletLine {
    type V = BulletModel;

    open spec fn view(&self) -> BulletModel {
        match self {
            BulletLine::Prose(s) => BulletModel::Prose(s@),
            BulletLine::Bullet { pr, text } => BulletModel::Bullet { pr: *pr, text: text@ },
        }
    }
}

/// The models of a sequence of body lines.
pub open spec fn bullet_views(v: Seq<BulletLine>) -> Seq<BulletModel> {
    v.map_values(|b: BulletLine| b@)
}

/// A `### ` subsection of the `## [Unreleased]` section.
pub struct Subsection {
    pub name: Vec<char>,
    pub heading: Vec<char>,
    pub body_lines: Vec<BulletLine>,
}

/// The model of a [`Subsection`].
pub struct SubsectionModel {
    pub name: Seq<char>,
    pub heading: Seq<char>,
    pub body: Seq<BulletModel>,
}

impl View for Subsection {
    type V = SubsectionModel;

    open spec fn view(&self) -> SubsectionModel {
        SubsectionModel {
            name: self.name@,
            heading: self.heading@,
            body: bullet_views(self.body_lines@),
        }
    }
}

/// The models of a sequence of subsections.
pub open spec fn sub_views(v: Seq<Subsection>) -> Seq<SubsectionModel> {
    v.map_values(|s: Subsection| s@)
}

/// A new entry: a pull-request number and the entry text (without the `- `).
pub type EntryModel = (u64, Seq<char>);

/// The models of a sequence of entries.
pub open spec fn entry_views(v: Seq<(u64, Vec<char>)>) -> Seq<EntryModel> {
    v.map_values(|e: (u64, Vec<char>)| (e.0, e.1@))
}

/// The models of a sequence of entries held as strings.
pub open spec fn string_entry_views(v: Seq<(u64, String)>) -> Seq<EntryModel> {
    v.map_values(|e: (u64, String)| (e.0, e.1@))
}

/// The models of new sections: a name and its entries.
pub open spec fn section_entry_views(v: Seq<(String, Vec<(u64, String)>)>) -> Seq<
    (Seq<char>, Seq<EntryModel>),
> {
    v.map_values(|e: (String, Vec<(u64, String)>)| (e.0@, string_entry_views(e.1@)))
}

// ---------------------------------------------------------------------------------------------
// Specification: bullets.
// ---------------------------------------------------------------------------------------------

/// The pull-request number of a bullet's `([#N]` reference.
pub open spec fn bullet_pr(bt: Seq<char>) -> Option<u64> {
    match text::find(bt, "([#"@) {
        None => None,
        Some(idx) => {
            let rest = bt.skip(idx + 3);
            match text::find(rest, "]"@) {
                None => None,
                Some(end) => numbers::parse_u64(rest.take(end)),
            }
        },
    }
}

/// Classifies a body line.
pub open spec fn classify(line: Seq<char>) -> BulletModel {
    let t = text::trim_start(line);
    if text::starts_with(t, "- "@) {
        BulletModel::Bullet { pr: bullet_pr(t.skip(2)), text: line }
    } else {
        BulletModel::Prose(line)
    }
}

/// Classifies every line.
pub open spec fn classify_all(ls: Seq<Seq<char>>) -> Seq<BulletModel> {
    ls.map_values(|l: Seq<char>| classify(l))
}

/// The text of a body line.
pub open spec fn line_text(b: BulletModel) -> Seq<char> {
    match b {
        BulletModel::Prose(s) => s,
        BulletModel::Bullet { text, .. } => text,
    }
}

/// The texts of body lines.
pub open spec fn texts(items: Seq<BulletModel>) -> Seq<Seq<char>> {
    items.map_values(|b: BulletModel| line_text(b))
}

/// Whether a body line is a bullet whose number exceeds `pr`.
pub open spec fn is_greater_bullet(b: BulletModel, pr: u64) -> bool {
    match b {
        BulletModel::Bullet { pr: Some(ep), .. } => ep > pr,
        _ => false,
    }
}

/// The first bullet at or after `i` whose number exceeds `pr`.
pub open spec fn first_greater_from(items: Seq<BulletModel>, pr: u64, i: int) -> Option<int>
    decreases items.len() - i,
{
    if i < 0 || i >= items.len() {
        None
    } else if is_greater_bullet(items[i], pr) {
        Some(i)
    } else {
        first_greater_from(items, pr, i + 1)
    }
}

/// The last bullet below `k`.
pub open spec fn last_bullet_below(items: Seq<BulletModel>, k: int) -> Option<int>
    decreases k,
{
    if k <= 0 || k > items.len() {
        None
    } else if items[k - 1] is Bullet {
        Some(k - 1)
    } else {
        last_bullet_below(items, k - 1)
    }
}

/// Where a new bullet for `pr` goes: before the first bullet with a larger number, else right
/// after the last bullet, else at the end.
pub open spec fn bullet_insert_pos(items: Seq<BulletModel>, pr: u64) -> int {
    match first_greater_from(items, pr, 0) {
        Some(i) => i,
        None => match last_bullet_below(items, items.len() as int) {
            Some(l) => l + 1,
            None => items.len() as int,
        },
    }
}

/// `items` with a new bullet for `pr` inserted.
pub open spec fn insert_bullet(items: Seq<BulletModel>, pr: u64, line: Seq<char>) -> Seq<
    BulletModel,
> {
    items.insert(bullet_insert_pos(items, pr), BulletModel::Bullet { pr: Some(pr), text: line })
}

/// The bullet line of an entry.
pub open spec fn entry_line(t: Seq<char>) -> Seq<char> {
    "- "@ + t
}

/// `items` with a bullet inserted for each entry, in order.
pub open spec fn insert_entries(items: Seq<BulletModel>, es: Seq<EntryModel>) -> Seq<BulletModel>
    decreases es.len(),
{
    if es.len() == 0 {
        items
    } else {
        insert_entries(insert_bullet(items, es[0].0, entry_line(es[0].1)), es.drop_first())
    }
}

// ---------------------------------------------------------------------------------------------
// Specification: stable sorting of entries by pull-request number.
// ---------------------------------------------------------------------------------------------

/// The first entry at or after `i` whose number exceeds `k`.
pub open spec fn upper_pos(s: Seq<EntryModel>, k: u64, i: int) -> int
    decreases s.len() - i,
{
    if i < 0 || i >= s.len() {
        s.len() as int
    } else if s[i].0 > k {
        i
    } else {
        upper_pos(s, k, i + 1)
    }
}

/// `s` with `x` inserted after every entry whose number is not larger.
pub open spec fn sorted_insert(s: Seq<EntryModel>, x: EntryModel) -> Seq<EntryModel> {
    s.insert(upper_pos(s, x.0, 0), x)
}

/// The entries stably sorted by number (`sort_by_key`).
pub open spec fn sort_entries(s: Seq<EntryModel>) -> Seq<EntryModel>
    decreases s.len(),
{
    if s.len() == 0 {
        s
    } else {
        sorted_insert(sort_entries(s.drop_last()), s.last())
    }
}

// ---------------------------------------------------------------------------------------------
// Specification: subsections.
// ---------------------------------------------------------------------------------------------

/// Whether a line is a `### ` heading.
pub open spec fn is_h3(line: Seq<char>) -> bool {
    text::starts_with(text::trim_start(line), "### "@)
}

/// `s` with every leading copy of `p` removed (`trim_start_matches`).
pub open spec fn strip_all(s: Seq<char>, p: Seq<char>) -> Seq<char>
    decreases s.len(),
{
    if p.len() > 0 && text::starts_with(s, p) {
        strip_all(s.skip(p.len() as int), p)
    } else {
        s
    }
}

/// The name of a `### ` heading.
pub open spec fn heading_name(h: Seq<char>) -> Seq<char> {
    text::trim(strip_all(text::trim_start(h), "### "@))
}

/// The first `### ` heading at or after `j` (or the number of lines).
pub open spec fn next_h3(ls: Seq<Seq<char>>, j: int) -> int
    decreases ls.len() - j,
{
    if j < 0 || j >= ls.len() {
        ls.len() as int
    } else if is_h3(ls[j]) {
        j
    } else {
        next_h3(ls, j + 1)
    }
}

/// The subsection headed by line `i` and ending before line `j`.
pub open spec fn make_sub(rest: Seq<Seq<char>>, i: int, j: int) -> SubsectionModel {
    SubsectionModel {
        name: heading_name(rest[i]),
        heading: rest[i],
        body: classify_all(rest.subrange(i + 1, j)),
    }
}

/// The subsections from line `i` on; lines before the first heading are ignored.
pub open spec fn parse_subs_from(rest: Seq<Seq<char>>, i: int) -> Seq<SubsectionModel>
    decreases rest.len() - i,
{
    if i < 0 || i >= rest.len() {
        seq![]
    } else if is_h3(rest[i]) {
        let j = next_h3(rest, i + 1);
        if i < j <= rest.len() {
            seq![make_sub(rest, i, j)] + parse_subs_from(rest, j)
        } else {
            seq![]
        }
    } else {
        parse_subs_from(rest, i + 1)
    }
}

/// The lines of a subsection.
pub open spec fn render(sub: SubsectionModel) -> Seq<Seq<char>> {
    seq![sub.heading] + texts(sub.body)
}

/// A blank line to follow `ls`, unless `ls` already ends with one.
pub open spec fn gap(ls: Seq<Seq<char>>) -> Seq<Seq<char>> {
    if ends_blank(ls) {
        seq![]
    } else {
        seq![seq![]]
    }
}

/// A subsection's lines, followed by a blank line unless they already end with one.
pub open spec fn block(sub: SubsectionModel) -> Seq<Seq<char>> {
    render(sub) + gap(render(sub))
}

/// The blocks of consecutive subsections.
pub open spec fn blocks(subs: Seq<SubsectionModel>) -> Seq<Seq<char>>
    decreases subs.len(),
{
    if subs.len() == 0 {
        seq![]
    } else {
        blocks(subs.drop_last()) + block(subs.last())
    }
}

/// The lines of consecutive subsections: a blank line separates each two, where the first does
/// not already end with one, so the spacing that is there is kept and never grows.
pub open spec fn render_all(subs: Seq<SubsectionModel>) -> Seq<Seq<char>> {
    if subs.len() == 0 {
        seq![]
    } else {
        blocks(subs.drop_last()) + render(subs.last())
    }
}

/// keep-a-changelog's subsections, in order.
pub open spec fn canonical_sections() -> Seq<Seq<char>> {
    seq!["Added"@, "Changed"@, "Deprecated"@, "Removed"@, "Fixed"@, "Security"@]
}

/// The position of `name` among the canonical subsections at or after `k` (or `usize::MAX`).
pub open spec fn rank_from(name: Seq<char>, k: int) -> usize
    decreases 6 - k,
{
    if k < 0 || k >= 6 {
        usize::MAX
    } else if canonical_sections()[k] == name {
        k as usize
    } else {
        rank_from(name, k + 1)
    }
}

/// The canonical rank of a subsection name; unknown names sort last.
pub open spec fn canonical_rank(name: Seq<char>) -> usize {
    rank_from(name, 0)
}

/// The first subsection at or after `k` ranked after `rank`.
pub open spec fn first_higher_rank(subs: Seq<SubsectionModel>, rank: usize, k: int) -> int
    decreases subs.len() - k,
{
    if k < 0 || k >= subs.len() {
        subs.len() as int
    } else if canonical_rank(subs[k].name) > rank {
        k
    } else {
        first_higher_rank(subs, rank, k + 1)
    }
}

/// The first subsection at or after `k` named `name`.
pub open spec fn find_sub(subs: Seq<SubsectionModel>, name: Seq<char>, k: int) -> Option<int>
    decreases subs.len() - k,
{
    if k < 0 || k >= subs.len() {
        None
    } else if subs[k].name == name {
        Some(k)
    } else {
        find_sub(subs, name, k + 1)
    }
}

/// The bullets of a new subsection's entries.
pub open spec fn entry_bullets(es: Seq<EntryModel>) -> Seq<BulletModel> {
    es.map_values(|e: EntryModel| BulletModel::Bullet { pr: Some(e.0), text: entry_line(e.1) })
}

/// A new subsection for `name` holding the (sorted) entries, after a blank line.
pub open spec fn new_sub(name: Seq<char>, sorted: Seq<EntryModel>) -> SubsectionModel {
    SubsectionModel {
        name: name,
        heading: "### "@ + name,
        body: seq![BulletModel::Prose(seq![])] + entry_bullets(sorted),
    }
}

/// The subsections with one section's entries merged in.
pub open spec fn insert_section(
    subs: Seq<SubsectionModel>,
    name: Seq<char>,
    entries: Seq<EntryModel>,
) -> Seq<SubsectionModel> {
    let sorted = sort_entries(entries);
    match find_sub(subs, name, 0) {
        Some(k) => subs.update(
            k,
            SubsectionModel {
                name: subs[k].name,
                heading: subs[k].heading,
                body: insert_entries(subs[k].body, sorted),
            },
        ),
        None => subs.insert(first_higher_rank(subs, canonical_rank(name), 0), new_sub(name, sorted)),
    }
}

/// The subsections with every section's entries merged in, in order.
pub open spec fn insert_all_sections(
    subs: Seq<SubsectionModel>,
    secs: Seq<(Seq<char>, Seq<EntryModel>)>,
) -> Seq<SubsectionModel>
    decreases secs.len(),
{
    if secs.len() == 0 {
        subs
    } else {
        insert_all_sections(insert_section(subs, secs[0].0, secs[0].1), secs.drop_first())
    }
}

// ---------------------------------------------------------------------------------------------
// Specification: the whole merge.
// ---------------------------------------------------------------------------------------------

/// Whether a line is a reference definition: `[label]:` after optional leading whitespace.
pub open spec fn is_ref_def_line(line: Seq<char>) -> bool {
    let t = text::trim_start(line);
    if text::starts_with(t, "["@) {
        match text::find(t.skip(1), "]"@) {
            None => false,
            Some(idx) => text::starts_with(t.skip(1).skip(idx + 1), ":"@),
        }
    } else {
        false
    }
}

/// Whether a line is the `## [Unreleased]` heading.
pub open spec fn is_unreleased_heading(l: Seq<char>) -> bool {
    text::trim(l) == "## [Unreleased]"@
}

/// The first `## [Unreleased]` heading at or after `i`.
pub open spec fn find_unreleased(ls: Seq<Seq<char>>, i: int) -> Option<int>
    decreases ls.len() - i,
{
    if i < 0 || i >= ls.len() {
        None
    } else if is_unreleased_heading(ls[i]) {
        Some(i)
    } else {
        find_unreleased(ls, i + 1)
    }
}

/// Whether a line ends the `## [Unreleased]` section: the next `## ` heading or a reference
/// definition.
pub open spec fn is_boundary(l: Seq<char>) -> bool {
    text::starts_with(l, "## "@) || is_ref_def_line(l)
}

/// The first boundary line at or after `j` (or the number of lines).
pub open spec fn next_boundary(ls: Seq<Seq<char>>, j: int) -> int
    decreases ls.len() - j,
{
    if j < 0 || j >= ls.len() {
        ls.len() as int
    } else if is_boundary(ls[j]) {
        j
    } else {
        next_boundary(ls, j + 1)
    }
}

/// The prelude (the body before its first subsection) with the placeholder bullets inserted.
pub open spec fn splice(prelude: Seq<Seq<char>>, ph: Seq<EntryModel>) -> Seq<Seq<char>> {
    texts(insert_entries(classify_all(prelude), sort_entries(ph)))
}

/// Whether the last line of `ls` is empty.
pub open spec fn ends_blank(ls: Seq<Seq<char>>) -> bool {
    ls.len() > 0 && ls.last().len() == 0
}

/// The new section body: the prelude, a separating blank line if needed, the subsections, and
/// a final blank line if the body does not already end with one.
pub open spec fn assemble_body(new_prelude: Seq<Seq<char>>, subs: Seq<SubsectionModel>) -> Seq<
    Seq<char>,
> {
    let nb = if subs.len() > 0 {
        (if new_prelude.len() > 0 && !ends_blank(new_prelude) {
            new_prelude.push(seq![])
        } else {
            new_prelude
        }) + render_all(subs)
    } else {
        new_prelude
    };
    if ends_blank(nb) {
        nb
    } else {
        nb.push(seq![])
    }
}

/// The merged lines, or `None` when there is no `## [Unreleased]` heading.
pub open spec fn merge_lines(
    ls: Seq<Seq<char>>,
    secs: Seq<(Seq<char>, Seq<EntryModel>)>,
    ph: Seq<EntryModel>,
) -> Option<Seq<Seq<char>>> {
    match find_unreleased(ls, 0) {
        None => None,
        Some(u) => if 0 <= u < ls.len() && u + 1 <= next_boundary(ls, u + 1) <= ls.len() {
            let b = next_boundary(ls, u + 1);
            let body = ls.subrange(u + 1, b);
            let h = next_h3(body, 0);
            if 0 <= h <= body.len() {
                let new_prelude = splice(body.take(h), ph);
                let subs = insert_all_sections(parse_subs_from(body.skip(h), 0), secs);
                Some(ls.take(u + 1) + assemble_body(new_prelude, subs) + ls.skip(b))
            } else {
                None
            }
        } else {
            None
        },
    }
}

/// `out` followed by a `'\n'` when `content` ends with one.
pub open spec fn with_final_newline(out: Seq<char>, content: Seq<char>) -> Seq<char> {
    if text::ends_with(content, "\n"@) {
        out.push('\n')
    } else {
        out
    }
}

/// The merged changelog, or `None` when there is something to merge but no
/// `## [Unreleased]` heading.
pub open spec fn merge(
    content: Seq<char>,
    secs: Seq<(Seq<char>, Seq<EntryModel>)>,
    ph: Seq<EntryModel>,
) -> Option<Seq<char>> {
    if secs.len() == 0 && ph.len() == 0 {
        Some(content)
    } else {
        match merge_lines(text::lines(content), secs, ph) {
            None => None,
            Some(out) => Some(with_final_newline(text::join_lines(out), content)),
        }
    }
}

// ---------------------------------------------------------------------------------------------
// Merging only adds lines.
// ---------------------------------------------------------------------------------------------

/// Bounds of [`first_greater_from`].
proof fn lemma_first_greater_from(items: Seq<BulletModel>, pr: u64, i: int)
    requires
        0 <= i,
    ensures
        first_greater_from(items, pr, i) matches Some(k) ==> i <= k < items.len(),
    decreases items.len() - i,
{
    if i < items.len() && !is_greater_bullet(items[i], pr) {
        lemma_first_greater_from(items, pr, i + 1);
    }
}

/// Bounds of [`last_bullet_below`].
proof fn lemma_last_bullet_below(items: Seq<BulletModel>, k: int)
    ensures
        last_bullet_below(items, k) matches Some(l) ==> 0 <= l < k <= items.len(),
    decreases k,
{
    if k > 0 && k <= items.len() && !(items[k - 1] is Bullet) {
        lemma_last_bullet_below(items, k - 1);
    }
}

/// Classifying lines keeps their text.
proof fn lemma_texts_classify_all(ls: Seq<Seq<char>>)
    ensures
        texts(classify_all(ls)) == ls,
{
    assert(texts(classify_all(ls)) =~= ls);
}

/// Inserting a bullet keeps every other line, in order.
proof fn lemma_insert_bullet_keeps(items: Seq<BulletModel>, pr: u64, line: Seq<char>)
    ensures
        subseq::is_subseq(texts(items), texts(insert_bullet(items, pr, line))),
        texts(insert_bullet(items, pr, line)).contains(line),
{
    let pos = bullet_insert_pos(items, pr);
    lemma_first_greater_from(items, pr, 0);
    lemma_last_bullet_below(items, items.len() as int);
    assert(0 <= pos <= items.len());
    let b = BulletModel::Bullet { pr: Some(pr), text: line };
    assert(texts(items.insert(pos, b)) =~= texts(items).insert(pos, line));
    subseq::lemma_subseq_insert(texts(items), pos, line);
    assert(texts(items.insert(pos, b))[pos] == line);
}

/// Inserting entries keeps every line, in order, and adds a bullet for each entry.
proof fn lemma_insert_entries_keeps(items: Seq<BulletModel>, es: Seq<EntryModel>)
    ensures
        subseq::is_subseq(texts(items), texts(insert_entries(items, es))),
        forall|i: int|
            0 <= i < es.len() ==> texts(insert_entries(items, es)).contains(
                entry_line(#[trigger] es[i].1),
            ),
    decreases es.len(),
{
    if es.len() == 0 {
        subseq::lemma_subseq_refl(texts(items));
    } else {
        let next = insert_bullet(items, es[0].0, entry_line(es[0].1));
        lemma_insert_bullet_keeps(items, es[0].0, entry_line(es[0].1));
        lemma_insert_entries_keeps(next, es.drop_first());
        let out = texts(insert_entries(items, es));
        subseq::lemma_subseq_trans(texts(items), texts(next), out);
        assert forall|i: int| 0 <= i < es.len() implies out.contains(entry_line(#[trigger] es[i].1)) by {
            if i == 0 {
                subseq::lemma_subseq_contains(texts(next), out, entry_line(es[0].1));
            } else {
                assert(es.drop_first()[i - 1] == es[i]);
            }
        }
    }
}

/// The lines of consecutive subsections, without separators.
pub open spec fn concat_renders(subs: Seq<SubsectionModel>) -> Seq<Seq<char>>
    decreases subs.len(),
{
    if subs.len() == 0 {
        seq![]
    } else {
        render(subs[0]) + concat_renders(subs.drop_first())
    }
}

/// The blocks of a subsection in front of others.
proof fn lemma_blocks_cons(x: SubsectionModel, t: Seq<SubsectionModel>)
    ensures
        blocks(seq![x] + t) == block(x) + blocks(t),
    decreases t.len(),
{
    let s = seq![x] + t;
    if t.len() == 0 {
        assert(s.drop_last() =~= Seq::<SubsectionModel>::empty());
        assert(blocks(s.drop_last()) =~= Seq::<Seq<char>>::empty());
        assert(blocks(t) =~= Seq::<Seq<char>>::empty());
        assert(blocks(s) =~= block(x) + blocks(t));
    } else {
        lemma_blocks_cons(x, t.drop_last());
        assert(s.drop_last() =~= seq![x] + t.drop_last());
        assert(s.last() == t.last());
        assert(blocks(s) =~= block(x) + blocks(t));
    }
}

/// Rendering a subsection in front of others.
proof fn lemma_render_all_cons(x: SubsectionModel, t: Seq<SubsectionModel>)
    ensures
        render_all(seq![x] + t) == if t.len() == 0 {
            render(x)
        } else {
            block(x) + render_all(t)
        },
{
    let s = seq![x] + t;
    if t.len() == 0 {
        assert(s.drop_last() =~= Seq::<SubsectionModel>::empty());
        assert(blocks(s.drop_last()) =~= Seq::<Seq<char>>::empty());
        assert(s.last() == x);
        assert(render_all(s) =~= render(x));
    } else {
        assert(s.drop_last() =~= seq![x] + t.drop_last());
        assert(s.last() == t.last());
        lemma_blocks_cons(x, t.drop_last());
        assert(render_all(s) =~= block(x) + render_all(t));
    }
}

/// Rendering with separators keeps the lines of the subsections, in order.
proof fn lemma_concat_renders_keeps(subs: Seq<SubsectionModel>)
    ensures
        subseq::is_subseq(concat_renders(subs), render_all(subs)),
    decreases subs.len(),
{
    if subs.len() == 0 {
        subseq::lemma_subseq_refl(concat_renders(subs));
    } else {
        let x = subs[0];
        let t = subs.drop_first();
        assert(subs =~= seq![x] + t);
        lemma_render_all_cons(x, t);
        if t.len() == 0 {
            assert(concat_renders(t) == Seq::<Seq<char>>::empty());
            assert(concat_renders(subs) =~= render(x));
            subseq::lemma_subseq_refl(render(x));
        } else {
            let g = gap(render(x));
            lemma_concat_renders_keeps(t);
            subseq::lemma_subseq_suffix(g, render_all(t));
            subseq::lemma_subseq_trans(concat_renders(t), render_all(t), g + render_all(t));
            subseq::lemma_subseq_refl(render(x));
            subseq::lemma_subseq_concat(render(x), render(x), concat_renders(t), g + render_all(t));
            assert(render(x) + (g + render_all(t)) =~= block(x) + render_all(t));
        }
    }
}

/// The subsections parsed from a heading on cover every line from there.
proof fn lemma_parse_subs_cover(rest: Seq<Seq<char>>, i: int)
    requires
        0 <= i <= rest.len(),
        i < rest.len() ==> is_h3(rest[i]),
    ensures
        concat_renders(parse_subs_from(rest, i)) == rest.skip(i),
    decreases rest.len() - i,
{
    if i == rest.len() {
        assert(rest.skip(i) =~= Seq::<Seq<char>>::empty());
    } else {
        let j = next_h3(rest, i + 1);
        lemma_next_h3(rest, i + 1);
        lemma_parse_subs_cover(rest, j);
        let sub = make_sub(rest, i, j);
        let tail = parse_subs_from(rest, j);
        assert(parse_subs_from(rest, i) == seq![sub] + tail);
        assert((seq![sub] + tail)[0] == sub);
        assert((seq![sub] + tail).drop_first() =~= tail);
        lemma_texts_classify_all(rest.subrange(i + 1, j));
        assert(render(sub) =~= rest.subrange(i, j));
        assert(rest.subrange(i, j) + rest.skip(j) =~= rest.skip(i));
    }
}

/// Lines before the first `### ` heading from `i` are skipped.
proof fn lemma_parse_subs_skip(rest: Seq<Seq<char>>, i: int)
    requires
        0 <= i <= rest.len(),
    ensures
        parse_subs_from(rest, i) == parse_subs_from(rest, next_h3(rest, i)),
    decreases rest.len() - i,
{
    if i < rest.len() && !is_h3(rest[i]) {
        lemma_parse_subs_skip(rest, i + 1);
    }
}

/// Each parsed subsection is named by its heading.
proof fn lemma_parse_subs_named(rest: Seq<Seq<char>>, i: int)
    requires
        0 <= i,
    ensures
        forall|k: int|
            0 <= k < parse_subs_from(rest, i).len() ==> (#[trigger] parse_subs_from(rest, i)[k]).name
                == heading_name(parse_subs_from(rest, i)[k].heading),
    decreases rest.len() - i,
{
    if i < rest.len() {
        if is_h3(rest[i]) {
            let j = next_h3(rest, i + 1);
            if i < j <= rest.len() {
                lemma_parse_subs_named(rest, j);
                let p = parse_subs_from(rest, i);
                let t = parse_subs_from(rest, j);
                assert(p == seq![make_sub(rest, i, j)] + t);
                assert forall|k: int| 0 <= k < p.len() implies (#[trigger] p[k]).name == heading_name(
                    p[k].heading,
                ) by {
                    if k > 0 {
                        assert(p[k] == t[k - 1]);
                    }
                }
            } else {
                assert(parse_subs_from(rest, i) =~= Seq::<SubsectionModel>::empty());
            }
        } else {
            lemma_parse_subs_named(rest, i + 1);
            assert(parse_subs_from(rest, i) == parse_subs_from(rest, i + 1));
        }
    } else {
        assert(parse_subs_from(rest, i) =~= Seq::<SubsectionModel>::empty());
    }
}

/// Parsing the subsections of lines keeps every line from the first `### ` heading on: the
/// subsections' headings and body lines, one after another, are exactly those lines, and each
/// subsection is named by the text of its heading after `### `.
pub proof fn lemma_parse_subsections_round_trip(rest: Seq<Seq<char>>)
    ensures
        concat_renders(parse_subs_from(rest, 0)) == rest.skip(next_h3(rest, 0)),
        forall|k: int|
            0 <= k < parse_subs_from(rest, 0).len() ==> (#[trigger] parse_subs_from(rest, 0)[k]).name
                == heading_name(parse_subs_from(rest, 0)[k].heading),
{
    lemma_next_h3(rest, 0);
    lemma_parse_subs_skip(rest, 0);
    lemma_parse_subs_cover(rest, next_h3(rest, 0));
    lemma_parse_subs_named(rest, 0);
}

/// `f` places each subsection of `a` on one of `b` whose lines keep its lines, in order, and
/// which ends with a blank line only where the one of `a` does.
pub open spec fn sub_embeds(a: Seq<SubsectionModel>, b: Seq<SubsectionModel>, f: Seq<int>) -> bool {
    &&& f.len() == a.len()
    &&& forall|i: int|
        0 <= i < a.len() ==> 0 <= #[trigger] f[i] < b.len() && subseq::is_subseq(
            render(a[i]),
            render(b[f[i]]),
        ) && (ends_blank(render(b[f[i]])) ==> ends_blank(render(a[i])))
    &&& forall|i: int, j: int| 0 <= i < j < a.len() ==> #[trigger] f[i] < #[trigger] f[j]
}

/// An embedding whose last subsection lands on the last one of `b`, without those two.
proof fn lemma_sub_embeds_drop_last(a: Seq<SubsectionModel>, b: Seq<SubsectionModel>, f: Seq<int>)
    requires
        sub_embeds(a, b, f),
        a.len() > 0,
        f[a.len() - 1] == b.len() - 1,
    ensures
        sub_embeds(a.drop_last(), b.drop_last(), f.drop_last()),
{
    let la = a.len() - 1;
    let ad = a.drop_last();
    let bd = b.drop_last();
    let fd = f.drop_last();
    assert forall|i: int| 0 <= i < ad.len() implies 0 <= #[trigger] fd[i] < bd.len()
        && subseq::is_subseq(render(ad[i]), render(bd[fd[i]])) && (ends_blank(render(bd[fd[i]]))
        ==> ends_blank(render(ad[i]))) by {
        assert(f[i] < f[la]);
        assert(bd[fd[i]] == b[f[i]]);
    }
    assert forall|i: int, j: int| 0 <= i < j < ad.len() implies #[trigger] fd[i] < #[trigger] fd[j] by {
        assert(f[i] < f[j]);
    }
}

/// An embedding that leaves the last subsection of `b` unused, without that one.
proof fn lemma_sub_embeds_shorter(a: Seq<SubsectionModel>, b: Seq<SubsectionModel>, f: Seq<int>)
    requires
        sub_embeds(a, b, f),
        b.len() > 0,
        a.len() > 0 ==> f[a.len() - 1] < b.len() - 1,
    ensures
        sub_embeds(a, b.drop_last(), f),
{
    let la = a.len() - 1;
    let bd = b.drop_last();
    assert forall|i: int| 0 <= i < a.len() implies 0 <= #[trigger] f[i] < bd.len()
        && subseq::is_subseq(render(a[i]), render(bd[f[i]])) && (ends_blank(render(bd[f[i]]))
        ==> ends_blank(render(a[i]))) by {
        if i < la {
            assert(f[i] < f[la]);
        }
        assert(bd[f[i]] == b[f[i]]);
    }
}

/// A subsection's block keeps the block of one whose lines it keeps.
proof fn lemma_block_embeds(x: SubsectionModel, y: SubsectionModel)
    requires
        subseq::is_subseq(render(x), render(y)),
        ends_blank(render(y)) ==> ends_blank(render(x)),
    ensures
        subseq::is_subseq(block(x), block(y)),
{
    if ends_blank(render(x)) {
        assert(gap(render(x)) =~= Seq::<Seq<char>>::empty());
        subseq::lemma_subseq_empty(gap(render(y)));
    } else {
        assert(gap(render(x)) == gap(render(y)));
        subseq::lemma_subseq_refl(gap(render(x)));
    }
    subseq::lemma_subseq_concat(render(x), render(y), gap(render(x)), gap(render(y)));
}

/// The blocks keep the blocks of subsections placed in order on subsections that keep theirs.
proof fn lemma_blocks_embeds(a: Seq<SubsectionModel>, b: Seq<SubsectionModel>, f: Seq<int>)
    requires
        sub_embeds(a, b, f),
    ensures
        subseq::is_subseq(blocks(a), blocks(b)),
    decreases b.len(),
{
    if a.len() == 0 {
        subseq::lemma_subseq_empty(blocks(b));
        assert(blocks(a) =~= Seq::<Seq<char>>::empty());
    } else {
        let la = a.len() - 1;
        assert(0 <= f[la] < b.len());
        if f[la] == b.len() - 1 {
            lemma_sub_embeds_drop_last(a, b, f);
            lemma_blocks_embeds(a.drop_last(), b.drop_last(), f.drop_last());
            lemma_block_embeds(a.last(), b.last());
            subseq::lemma_subseq_concat(
                blocks(a.drop_last()),
                blocks(b.drop_last()),
                block(a.last()),
                block(b.last()),
            );
        } else {
            lemma_sub_embeds_shorter(a, b, f);
            lemma_blocks_embeds(a, b.drop_last(), f);
            subseq::lemma_subseq_prefix(blocks(b.drop_last()), block(b.last()));
            subseq::lemma_subseq_trans(blocks(a), blocks(b.drop_last()), blocks(b));
        }
    }
}

/// Rendering keeps the lines of subsections placed in order on subsections that keep theirs.
proof fn lemma_render_all_embeds(a: Seq<SubsectionModel>, b: Seq<SubsectionModel>, f: Seq<int>)
    requires
        sub_embeds(a, b, f),
    ensures
        subseq::is_subseq(render_all(a), render_all(b)),
{
    if a.len() == 0 {
        subseq::lemma_subseq_empty(render_all(b));
        assert(render_all(a) =~= Seq::<Seq<char>>::empty());
    } else {
        let la = a.len() - 1;
        let bd = b.drop_last();
        assert(0 <= f[la] < b.len());
        if f[la] == b.len() - 1 {
            lemma_sub_embeds_drop_last(a, b, f);
            lemma_blocks_embeds(a.drop_last(), bd, f.drop_last());
            subseq::lemma_subseq_concat(
                blocks(a.drop_last()),
                blocks(bd),
                render(a.last()),
                render(b.last()),
            );
        } else {
            lemma_sub_embeds_shorter(a, b, f);
            lemma_blocks_embeds(a, bd, f);
            let g = gap(render(a.last()));
            assert(blocks(a) =~= render_all(a) + g);
            subseq::lemma_subseq_prefix(render_all(a), g);
            subseq::lemma_subseq_prefix(blocks(bd), render(b.last()));
            subseq::lemma_subseq_trans(render_all(a), blocks(a), blocks(bd));
            subseq::lemma_subseq_trans(render_all(a), blocks(bd), render_all(b));
        }
    }
}

/// Inserting a bullet line ends a subsection's lines with a blank line only where they did.
proof fn lemma_insert_bullet_tail(h: Seq<char>, items: Seq<BulletModel>, pr: u64, line: Seq<char>)
    requires
        line.len() > 0,
    ensures
        ends_blank(seq![h] + texts(insert_bullet(items, pr, line))) ==> ends_blank(
            seq![h] + texts(items),
        ),
{
    let pos = bullet_insert_pos(items, pr);
    lemma_first_greater_from(items, pr, 0);
    lemma_last_bullet_below(items, items.len() as int);
    let b = BulletModel::Bullet { pr: Some(pr), text: line };
    assert(texts(items.insert(pos, b)) =~= texts(items).insert(pos, line));
    let t1 = seq![h] + texts(items);
    let t2 = seq![h] + texts(items).insert(pos, line);
    if pos == items.len() {
        assert(t2.last() == line);
    } else {
        assert(t2.last() == t1.last());
    }
}

/// Inserting entries ends a subsection's lines with a blank line only where they did.
proof fn lemma_insert_entries_tail(h: Seq<char>, items: Seq<BulletModel>, es: Seq<EntryModel>)
    ensures
        ends_blank(seq![h] + texts(insert_entries(items, es))) ==> ends_blank(
            seq![h] + texts(items),
        ),
    decreases es.len(),
{
    if es.len() > 0 {
        reveal_strlit("- ");
        let line = entry_line(es[0].1);
        assert(line.len() > 0);
        lemma_insert_entries_tail(h, insert_bullet(items, es[0].0, line), es.drop_first());
        lemma_insert_bullet_tail(h, items, es[0].0, line);
    }
}

/// Merging one section's entries keeps every line of the subsections, in order.
proof fn lemma_insert_section_keeps(
    subs: Seq<SubsectionModel>,
    name: Seq<char>,
    entries: Seq<EntryModel>,
)
    ensures
        subseq::is_subseq(render_all(subs), render_all(insert_section(subs, name, entries))),
{
    let sorted = sort_entries(entries);
    let out = insert_section(subs, name, entries);
    match find_sub(subs, name, 0) {
        Some(k) => {
            lemma_find_sub(subs, name, 0);
            let old_sub = subs[k];
            let new_body = insert_entries(old_sub.body, sorted);
            lemma_insert_entries_keeps(old_sub.body, sorted);
            subseq::lemma_subseq_refl(seq![old_sub.heading]);
            subseq::lemma_subseq_concat(
                seq![old_sub.heading],
                seq![old_sub.heading],
                texts(old_sub.body),
                texts(new_body),
            );
            lemma_insert_entries_tail(old_sub.heading, old_sub.body, sorted);
            let f = Seq::new(subs.len(), |i: int| i);
            assert forall|i: int| 0 <= i < subs.len() implies 0 <= #[trigger] f[i] < out.len()
                && subseq::is_subseq(render(subs[i]), render(out[f[i]])) && (ends_blank(
                render(out[f[i]]),
            ) ==> ends_blank(render(subs[i]))) by {
                if i != k {
                    subseq::lemma_subseq_refl(render(subs[i]));
                }
            }
            assert(sub_embeds(subs, out, f));
            lemma_render_all_embeds(subs, out, f);
        },
        None => {
            let pos = first_higher_rank(subs, canonical_rank(name), 0);
            lemma_first_higher_rank(subs, canonical_rank(name), 0);
            let f = Seq::new(subs.len(), |i: int| if i < pos { i } else { i + 1 });
            assert forall|i: int| 0 <= i < subs.len() implies 0 <= #[trigger] f[i] < out.len()
                && subseq::is_subseq(render(subs[i]), render(out[f[i]])) && (ends_blank(
                render(out[f[i]]),
            ) ==> ends_blank(render(subs[i]))) by {
                subseq::lemma_subseq_refl(render(subs[i]));
            }
            assert(sub_embeds(subs, out, f));
            lemma_render_all_embeds(subs, out, f);
        },
    }
}

/// Bounds of [`find_sub`].
proof fn lemma_find_sub(subs: Seq<SubsectionModel>, name: Seq<char>, k: int)
    requires
        0 <= k,
    ensures
        find_sub(subs, name, k) matches Some(i) ==> k <= i < subs.len() && subs[i].name == name,
    decreases subs.len() - k,
{
    if k < subs.len() && subs[k].name != name {
        lemma_find_sub(subs, name, k + 1);
    }
}

/// Merging every section's entries keeps every line of the subsections, in order.
proof fn lemma_insert_all_sections_keeps(
    subs: Seq<SubsectionModel>,
    secs: Seq<(Seq<char>, Seq<EntryModel>)>,
)
    ensures
        subseq::is_subseq(render_all(subs), render_all(insert_all_sections(subs, secs))),
    decreases secs.len(),
{
    if secs.len() == 0 {
        subseq::lemma_subseq_refl(render_all(subs));
    } else {
        let next = insert_section(subs, secs[0].0, secs[0].1);
        lemma_insert_section_keeps(subs, secs[0].0, secs[0].1);
        lemma_insert_all_sections_keeps(next, secs.drop_first());
        subseq::lemma_subseq_trans(
            render_all(subs),
            render_all(next),
            render_all(insert_all_sections(subs, secs)),
        );
    }
}

/// Merging entries into a changelog only adds lines: every line it had is kept, in order.
pub proof fn lemma_merge_keeps_lines(
    ls: Seq<Seq<char>>,
    secs: Seq<(Seq<char>, Seq<EntryModel>)>,
    ph: Seq<EntryModel>,
)
    ensures
        merge_lines(ls, secs, ph) matches Some(out) ==> subseq::is_subseq(ls, out),
{
    if let Some(out) = merge_lines(ls, secs, ph) {
        let u = find_unreleased(ls, 0)->0;
        let b = next_boundary(ls, u + 1);
        let body = ls.subrange(u + 1, b);
        let h = next_h3(body, 0);
        lemma_next_h3(body, 0);
        let prelude = body.take(h);
        let rest = body.skip(h);
        let np = splice(prelude, ph);
        let parsed = parse_subs_from(rest, 0);
        let subs = insert_all_sections(parsed, secs);
        // The prelude keeps its lines.
        lemma_texts_classify_all(prelude);
        lemma_insert_entries_keeps(classify_all(prelude), sort_entries(ph));
        // The subsections keep theirs.
        assert(rest.skip(0) =~= rest);
        if h < body.len() {
            assert(rest[0] == body[h]);
        }
        lemma_parse_subs_cover(rest, 0);
        lemma_concat_renders_keeps(parsed);
        lemma_insert_all_sections_keeps(parsed, secs);
        subseq::lemma_subseq_trans(rest, render_all(parsed), render_all(subs));
        // The new body keeps the old one.
        let sep = seq![Seq::<char>::empty()];
        let np2 = if np.len() > 0 && !ends_blank(np) {
            np.push(seq![])
        } else {
            np
        };
        subseq::lemma_subseq_prefix(np, sep);
        assert(np + sep =~= np.push(seq![]));
        if np.len() > 0 && !ends_blank(np) {
        } else {
            subseq::lemma_subseq_refl(np);
        }
        subseq::lemma_subseq_trans(prelude, np, np2);
        let nb = if subs.len() > 0 {
            np2 + render_all(subs)
        } else {
            np
        };
        if subs.len() > 0 {
            subseq::lemma_subseq_concat(prelude, np2, rest, render_all(subs));
        } else {
            assert(render_all(subs) =~= Seq::<Seq<char>>::empty());
            subseq::lemma_subseq_concat(prelude, np, rest, render_all(subs));
            assert(np + render_all(subs) =~= np);
        }
        assert(prelude + rest =~= body);
        let ab = assemble_body(np, subs);
        subseq::lemma_subseq_prefix(nb, sep);
        assert(nb + sep =~= nb.push(seq![]));
        if !ends_blank(nb) {
            subseq::lemma_subseq_trans(body, nb, ab);
        }
        // Around the body, nothing changes.
        subseq::lemma_subseq_refl(ls.take(u + 1));
        subseq::lemma_subseq_refl(ls.skip(b));
        subseq::lemma_subseq_concat(ls.take(u + 1), ls.take(u + 1), body, ab);
        subseq::lemma_subseq_concat(ls.take(u + 1) + body, ls.take(u + 1) + ab, ls.skip(b), ls.skip(b));
        assert(ls.take(u + 1) + body + ls.skip(b) =~= ls);
    }
}

// ---------------------------------------------------------------------------------------------
// Merging adds a bullet for every entry.
// ---------------------------------------------------------------------------------------------

/// Sorting keeps every entry.
proof fn lemma_sort_entries_keeps(es: Seq<EntryModel>)
    ensures
        forall|i: int| 0 <= i < es.len() ==> sort_entries(es).contains(#[trigger] es[i]),
    decreases es.len(),
{
    if es.len() > 0 {
        let p = es.drop_last();
        lemma_sort_entries_keeps(p);
        let sp = sort_entries(p);
        let x = es.last();
        let pos = upper_pos(sp, x.0, 0);
        lemma_upper_pos(sp, x.0, 0);
        let out = sp.insert(pos, x);
        assert(out[pos] == x);
        assert forall|i: int| 0 <= i < es.len() implies sort_entries(es).contains(#[trigger] es[i]) by {
            if i < es.len() - 1 {
                assert(p[i] == es[i]);
                let k = choose|k: int| 0 <= k < sp.len() && sp[k] == p[i];
                if k < pos {
                    assert(out[k] == sp[k]);
                } else {
                    assert(out[k + 1] == sp[k]);
                }
            }
        }
    }
}

/// A line of one subsection is a line of the blocks.
proof fn lemma_blocks_contains(subs: Seq<SubsectionModel>, k: int, x: Seq<char>)
    requires
        0 <= k < subs.len(),
        render(subs[k]).contains(x),
    ensures
        blocks(subs).contains(x),
    decreases subs.len(),
{
    let d = subs.drop_last();
    let y = subs.last();
    if k == subs.len() - 1 {
        subseq::lemma_subseq_prefix(render(y), gap(render(y)));
        subseq::lemma_subseq_contains(render(y), block(y), x);
        subseq::lemma_subseq_suffix(blocks(d), block(y));
        subseq::lemma_subseq_contains(block(y), blocks(subs), x);
    } else {
        assert(d[k] == subs[k]);
        lemma_blocks_contains(d, k, x);
        subseq::lemma_subseq_prefix(blocks(d), block(y));
        subseq::lemma_subseq_contains(blocks(d), blocks(subs), x);
    }
}

/// A line of one subsection is a line of the rendered subsections.
proof fn lemma_render_all_contains(subs: Seq<SubsectionModel>, k: int, x: Seq<char>)
    requires
        0 <= k < subs.len(),
        render(subs[k]).contains(x),
    ensures
        render_all(subs).contains(x),
{
    let d = subs.drop_last();
    if k == subs.len() - 1 {
        subseq::lemma_subseq_suffix(blocks(d), render(subs.last()));
        subseq::lemma_subseq_contains(render(subs.last()), render_all(subs), x);
    } else {
        assert(d[k] == subs[k]);
        lemma_blocks_contains(d, k, x);
        subseq::lemma_subseq_prefix(blocks(d), render(subs.last()));
        subseq::lemma_subseq_contains(blocks(d), render_all(subs), x);
    }
}

/// Merging one section's entries adds a bullet for each of them.
proof fn lemma_insert_section_adds(subs: Seq<SubsectionModel>, name: Seq<char>, entries: Seq<EntryModel>)
    ensures
        forall|i: int|
            0 <= i < entries.len() ==> render_all(insert_section(subs, name, entries)).contains(
                entry_line(#[trigger] entries[i].1),
            ),
{
    let sorted = sort_entries(entries);
    let out = insert_section(subs, name, entries);
    lemma_sort_entries_keeps(entries);
    assert forall|i: int| 0 <= i < entries.len() implies render_all(out).contains(
        entry_line(#[trigger] entries[i].1),
    ) by {
        let k = choose|k: int| 0 <= k < sorted.len() && sorted[k] == entries[i];
        let line = entry_line(entries[i].1);
        match find_sub(subs, name, 0) {
            Some(j) => {
                lemma_find_sub(subs, name, 0);
                lemma_insert_entries_keeps(subs[j].body, sorted);
                assert(sorted[k].1 == entries[i].1);
                let r = render(out[j]);
                let tb = texts(insert_entries(subs[j].body, sorted));
                let m = choose|m: int| 0 <= m < tb.len() && tb[m] == line;
                assert(r[m + 1] == line);
                lemma_render_all_contains(out, j, line);
            },
            None => {
                let pos = first_higher_rank(subs, canonical_rank(name), 0);
                lemma_first_higher_rank(subs, canonical_rank(name), 0);
                let ns = new_sub(name, sorted);
                assert(out[pos] == ns);
                assert(texts(ns.body)[k + 1] == line);
                assert(render(ns)[k + 2] == line);
                lemma_render_all_contains(out, pos, line);
            },
        }
    }
}

/// Merging every section's entries adds a bullet for each of them.
proof fn lemma_insert_all_sections_adds(
    subs: Seq<SubsectionModel>,
    secs: Seq<(Seq<char>, Seq<EntryModel>)>,
)
    ensures
        forall|s: int, i: int|
            0 <= s < secs.len() && 0 <= i < secs[s].1.len() ==> render_all(
                insert_all_sections(subs, secs),
            ).contains(entry_line(#[trigger] secs[s].1[i].1)),
    decreases secs.len(),
{
    if secs.len() > 0 {
        let next = insert_section(subs, secs[0].0, secs[0].1);
        let out = render_all(insert_all_sections(subs, secs));
        lemma_insert_section_adds(subs, secs[0].0, secs[0].1);
        lemma_insert_all_sections_adds(next, secs.drop_first());
        lemma_insert_all_sections_keeps(next, secs.drop_first());
        assert forall|s: int, i: int| 0 <= s < secs.len() && 0 <= i < secs[s].1.len() implies out.contains(
            entry_line(#[trigger] secs[s].1[i].1),
        ) by {
            if s == 0 {
                subseq::lemma_subseq_contains(render_all(next), out, entry_line(secs[0].1[i].1));
            } else {
                assert(secs.drop_first()[s - 1] == secs[s]);
            }
        }
    }
}

/// Merging puts a `- ` bullet for every entry, of every section and every placeholder, into
/// the changelog.
pub proof fn lemma_merge_adds_entries(
    ls: Seq<Seq<char>>,
    secs: Seq<(Seq<char>, Seq<EntryModel>)>,
    ph: Seq<EntryModel>,
)
    ensures
        merge_lines(ls, secs, ph) matches Some(out) ==> {
            &&& forall|i: int| 0 <= i < ph.len() ==> out.contains(entry_line(#[trigger] ph[i].1))
            &&& forall|s: int, i: int|
                0 <= s < secs.len() && 0 <= i < secs[s].1.len() ==> out.contains(
                    entry_line(#[trigger] secs[s].1[i].1),
                )
        },
{
    if let Some(out) = merge_lines(ls, secs, ph) {
        let u = find_unreleased(ls, 0)->0;
        let b = next_boundary(ls, u + 1);
        let body = ls.subrange(u + 1, b);
        let h = next_h3(body, 0);
        let prelude = body.take(h);
        let np = splice(prelude, ph);
        let parsed = parse_subs_from(body.skip(h), 0);
        let subs = insert_all_sections(parsed, secs);
        let sep = seq![Seq::<char>::empty()];
        let np2 = if np.len() > 0 && !ends_blank(np) {
            np.push(seq![])
        } else {
            np
        };
        let nb = if subs.len() > 0 {
            np2 + render_all(subs)
        } else {
            np
        };
        let ab = assemble_body(np, subs);
        // Where the new body sits in the output.
        subseq::lemma_subseq_prefix(nb, sep);
        assert(nb + sep =~= nb.push(seq![]));
        if ends_blank(nb) {
            subseq::lemma_subseq_refl(nb);
        }
        subseq::lemma_subseq_suffix(ls.take(u + 1), ab);
        subseq::lemma_subseq_prefix(ls.take(u + 1) + ab, ls.skip(b));
        subseq::lemma_subseq_trans(ab, ls.take(u + 1) + ab, out);
        subseq::lemma_subseq_trans(nb, ab, out);
        // Placeholders go into the prelude.
        lemma_sort_entries_keeps(ph);
        lemma_insert_entries_keeps(classify_all(prelude), sort_entries(ph));
        subseq::lemma_subseq_prefix(np, sep);
        assert(np + sep =~= np.push(seq![]));
        if !(np.len() > 0 && !ends_blank(np)) {
            subseq::lemma_subseq_refl(np);
        }
        if subs.len() > 0 {
            subseq::lemma_subseq_prefix(np2, render_all(subs));
            subseq::lemma_subseq_trans(np, np2, nb);
        } else {
            subseq::lemma_subseq_refl(np);
        }
        assert forall|i: int| 0 <= i < ph.len() implies out.contains(entry_line(#[trigger] ph[i].1)) by {
            let sorted = sort_entries(ph);
            let k = choose|k: int| 0 <= k < sorted.len() && sorted[k] == ph[i];
            assert(sorted[k].1 == ph[i].1);
            subseq::lemma_subseq_contains(np, nb, entry_line(ph[i].1));
            subseq::lemma_subseq_contains(nb, out, entry_line(ph[i].1));
        }
        // Section entries go into the subsections.
        lemma_insert_all_sections_adds(parsed, secs);
        assert forall|s: int, i: int| 0 <= s < secs.len() && 0 <= i < secs[s].1.len() implies out.contains(
            entry_line(#[trigger] secs[s].1[i].1),
        ) by {
            let line = entry_line(secs[s].1[i].1);
            if subs.len() == 0 {
                assert(render_all(subs) =~= Seq::<Seq<char>>::empty());
            }
            subseq::lemma_subseq_suffix(np2, render_all(subs));
            subseq::lemma_subseq_contains(render_all(subs), nb, line);
            subseq::lemma_subseq_contains(nb, out, line);
        }
    }
}

// ---------------------------------------------------------------------------------------------
// Insertion keeps pull-request order.
// ---------------------------------------------------------------------------------------------

/// Whether the numbered bullets of `items` are in ascending order of pull-request number.
pub open spec fn bullets_ascending(items: Seq<BulletModel>) -> bool {
    forall|i: int, j: int|
        0 <= i < j < items.len() ==> match (#[trigger] items[i], #[trigger] items[j]) {
            (
                BulletModel::Bullet { pr: Some(a), .. },
                BulletModel::Bullet { pr: Some(b), .. },
            ) => a <= b,
            _ => true,
        }
}

/// What [`first_greater_from`] finds: the first numbered bullet above `pr`.
proof fn lemma_first_greater_from_first(items: Seq<BulletModel>, pr: u64, i: int)
    requires
        0 <= i,
    ensures
        first_greater_from(items, pr, i) matches Some(k) ==> is_greater_bullet(items[k], pr)
            && forall|m: int| i <= m < k ==> !is_greater_bullet(#[trigger] items[m], pr),
        first_greater_from(items, pr, i) is None ==> forall|m: int|
            i <= m < items.len() ==> !is_greater_bullet(#[trigger] items[m], pr),
    decreases items.len() - i,
{
    if i < items.len() && !is_greater_bullet(items[i], pr) {
        lemma_first_greater_from_first(items, pr, i + 1);
    }
}

/// What [`last_bullet_below`] finds: the last bullet below `k`.
proof fn lemma_last_bullet_below_last(items: Seq<BulletModel>, k: int)
    requires
        0 <= k <= items.len(),
    ensures
        last_bullet_below(items, k) matches Some(l) ==> forall|m: int|
            l < m < k ==> !(#[trigger] items[m] is Bullet),
        last_bullet_below(items, k) is None ==> forall|m: int| 0 <= m < k ==> !(#[trigger] items[m] is Bullet),
    decreases k,
{
    if k > 0 && !(items[k - 1] is Bullet) {
        lemma_last_bullet_below_last(items, k - 1);
    }
}

/// Inserting a bullet keeps the numbered bullets in ascending order.
pub proof fn lemma_insert_bullet_ascending(items: Seq<BulletModel>, pr: u64, line: Seq<char>)
    requires
        bullets_ascending(items),
    ensures
        bullets_ascending(insert_bullet(items, pr, line)),
{
    let pos = bullet_insert_pos(items, pr);
    lemma_first_greater_from(items, pr, 0);
    lemma_last_bullet_below(items, items.len() as int);
    lemma_first_greater_from_first(items, pr, 0);
    lemma_last_bullet_below_last(items, items.len() as int);
    let b = BulletModel::Bullet { pr: Some(pr), text: line };
    let out = items.insert(pos, b);
    assert forall|i: int, j: int| 0 <= i < j < out.len() implies match (#[trigger] out[i], #[trigger] out[j]) {
        (BulletModel::Bullet { pr: Some(a), .. }, BulletModel::Bullet { pr: Some(c), .. }) => a <= c,
        _ => true,
    } by {
        if i == pos {
            // Every numbered bullet after the insertion point is above `pr`.
            let jj = j - 1;
            assert(out[j] == items[jj]);
            match first_greater_from(items, pr, 0) {
                Some(k) => {
                    if jj > k {
                        assert(match (items[k], items[jj]) {
                            (BulletModel::Bullet { pr: Some(a), .. }, BulletModel::Bullet { pr: Some(c), .. }) => a <= c,
                            _ => true,
                        });
                    }
                },
                None => {
                    match last_bullet_below(items, items.len() as int) {
                        Some(l) => {
                            assert(!(items[jj] is Bullet));
                        },
                        None => {},
                    }
                },
            }
        } else if j == pos {
            // Every numbered bullet before it is at most `pr`.
            assert(out[i] == items[i]);
            assert(!is_greater_bullet(items[i], pr));
        } else {
            let ii = if i < pos { i } else { i - 1 };
            let jj = if j < pos { j } else { j - 1 };
            assert(out[i] == items[ii] && out[j] == items[jj]);
            assert(match (items[ii], items[jj]) {
                (BulletModel::Bullet { pr: Some(a), .. }, BulletModel::Bullet { pr: Some(c), .. }) => a <= c,
                _ => true,
            });
        }
    }
}

/// Inserting entries keeps the numbered bullets in ascending order.
pub proof fn lemma_insert_entries_ascending(items: Seq<BulletModel>, es: Seq<EntryModel>)
    requires
        bullets_ascending(items),
    ensures
        bullets_ascending(insert_entries(items, es)),
    decreases es.len(),
{
    if es.len() > 0 {
        lemma_insert_bullet_ascending(items, es[0].0, entry_line(es[0].1));
        lemma_insert_entries_ascending(insert_bullet(items, es[0].0, entry_line(es[0].1)), es.drop_first());
    }
}

/// Whether entries are in ascending order of pull-request number.
pub open spec fn entries_ascending(s: Seq<EntryModel>) -> bool {
    forall|i: int, j: int| 0 <= i < j < s.len() ==> (#[trigger] s[i]).0 <= (#[trigger] s[j]).0
}

/// What [`upper_pos`] finds: the first entry numbered above `k`.
proof fn lemma_upper_pos_first(s: Seq<EntryModel>, k: u64, i: int)
    requires
        0 <= i <= s.len(),
    ensures
        forall|m: int| i <= m < upper_pos(s, k, i) ==> (#[trigger] s[m]).0 <= k,
        upper_pos(s, k, i) < s.len() ==> s[upper_pos(s, k, i)].0 > k,
    decreases s.len() - i,
{
    if i < s.len() && s[i].0 <= k {
        lemma_upper_pos_first(s, k, i + 1);
    }
}

/// Sorting puts entries in ascending order.
pub proof fn lemma_sort_entries_ascending(es: Seq<EntryModel>)
    ensures
        entries_ascending(sort_entries(es)),
    decreases es.len(),
{
    if es.len() > 0 {
        let sp = sort_entries(es.drop_last());
        lemma_sort_entries_ascending(es.drop_last());
        let x = es.last();
        let pos = upper_pos(sp, x.0, 0);
        lemma_upper_pos(sp, x.0, 0);
        lemma_upper_pos_first(sp, x.0, 0);
        let out = sp.insert(pos, x);
        assert forall|i: int, j: int| 0 <= i < j < out.len() implies (#[trigger] out[i]).0 <= (#[trigger] out[j]).0 by {
            if i == pos {
                assert(out[j] == sp[j - 1]);
                assert(sp[pos].0 > x.0);
                if j - 1 > pos {
                    assert(sp[pos].0 <= sp[j - 1].0);
                }
            } else if j == pos {
                assert(out[i] == sp[i]);
            } else {
                let ii = if i < pos { i } else { i - 1 };
                let jj = if j < pos { j } else { j - 1 };
                assert(out[i] == sp[ii] && out[j] == sp[jj]);
            }
        }
    }
}

/// Every subsection's numbered bullets are in ascending order.
pub open spec fn subs_ascending(subs: Seq<SubsectionModel>) -> bool {
    forall|k: int| 0 <= k < subs.len() ==> bullets_ascending(#[trigger] subs[k].body)
}

/// Merging one section's entries keeps every subsection's numbered bullets in ascending order.
proof fn lemma_insert_section_ascending(subs: Seq<SubsectionModel>, name: Seq<char>, entries: Seq<EntryModel>)
    requires
        subs_ascending(subs),
    ensures
        subs_ascending(insert_section(subs, name, entries)),
{
    let sorted = sort_entries(entries);
    let out = insert_section(subs, name, entries);
    match find_sub(subs, name, 0) {
        Some(k) => {
            lemma_find_sub(subs, name, 0);
            assert(bullets_ascending(subs[k].body));
            lemma_insert_entries_ascending(subs[k].body, sorted);
            assert forall|m: int| 0 <= m < out.len() implies bullets_ascending(#[trigger] out[m].body) by {
                if m != k {
                    assert(out[m] == subs[m]);
                }
            }
        },
        None => {
            let pos = first_higher_rank(subs, canonical_rank(name), 0);
            lemma_first_higher_rank(subs, canonical_rank(name), 0);
            lemma_sort_entries_ascending(entries);
            let body = new_sub(name, sorted).body;
            assert forall|i: int, j: int| 0 <= i < j < body.len() implies match (#[trigger] body[i], #[trigger] body[j]) {
                (BulletModel::Bullet { pr: Some(a), .. }, BulletModel::Bullet { pr: Some(b), .. }) => a <= b,
                _ => true,
            } by {
                if i > 0 {
                    assert(body[i] == BulletModel::Bullet { pr: Some(sorted[i - 1].0), text: entry_line(sorted[i - 1].1) });
                    assert(body[j] == BulletModel::Bullet { pr: Some(sorted[j - 1].0), text: entry_line(sorted[j - 1].1) });
                    assert(sorted[i - 1].0 <= sorted[j - 1].0);
                }
            }
            assert forall|m: int| 0 <= m < out.len() implies bullets_ascending(#[trigger] out[m].body) by {
                if m < pos {
                    assert(out[m] == subs[m]);
                } else if m > pos {
                    assert(out[m] == subs[m - 1]);
                }
            }
        },
    }
}

/// Merging entries into subsections keeps each subsection's numbered bullets in ascending
/// order.
pub proof fn lemma_insert_all_sections_ascending(
    subs: Seq<SubsectionModel>,
    secs: Seq<(Seq<char>, Seq<EntryModel>)>,
)
    requires
        subs_ascending(subs),
    ensures
        subs_ascending(insert_all_sections(subs, secs)),
    decreases secs.len(),
{
    if secs.len() > 0 {
        lemma_insert_section_ascending(subs, secs[0].0, secs[0].1);
        lemma_insert_all_sections_ascending(insert_section(subs, secs[0].0, secs[0].1), secs.drop_first());
    }
}

// ---------------------------------------------------------------------------------------------
// Merging edits the lines of a changelog's text.
// ---------------------------------------------------------------------------------------------

/// Whether every entry text is a plain line.
pub open spec fn entries_plain(es: Seq<EntryModel>) -> bool {
    forall|i: int| 0 <= i < es.len() ==> text::plain_line(#[trigger] es[i].1)
}

/// Whether every section name and entry text is a plain line.
pub open spec fn sections_plain(secs: Seq<(Seq<char>, Seq<EntryModel>)>) -> bool {
    forall|s: int|
        0 <= s < secs.len() ==> text::plain_line(#[trigger] secs[s].0) && entries_plain(secs[s].1)
}


/// The bullet line of a plain text is plain.
proof fn lemma_entry_line_plain(t: Seq<char>)
    requires
        text::plain_line(t),
    ensures
        text::plain_line(entry_line(t)),
{
    reveal_strlit("- ");
    text::lemma_literal_plain("- "@);
    text::lemma_concat_plain("- "@, t);
}








/// Merging plain entries into plain lines gives plain lines.
proof fn lemma_merge_lines_plain(
    ls: Seq<Seq<char>>,
    secs: Seq<(Seq<char>, Seq<EntryModel>)>,
    ph: Seq<EntryModel>,
)
    requires
        text::plain_lines(ls),
        sections_plain(secs),
        entries_plain(ph),
    ensures
        merge_lines(ls, secs, ph) matches Some(out) ==> text::plain_lines(out) && out.len() > 0,
{
    let good = |l: Seq<char>| text::plain_line(l);
    text::lemma_literal_plain(Seq::<char>::empty());
    reveal_strlit("### ");
    text::lemma_literal_plain("### "@);
    assert forall|i: int| 0 <= i < ph.len() implies good(entry_line((#[trigger] ph[i]).1)) by {
        lemma_entry_line_plain(ph[i].1);
    }
    assert forall|t: int| 0 <= t < secs.len() implies good("### "@ + (#[trigger] secs[t]).0)
        && entries_good(secs[t].1, good) by {
        text::lemma_concat_plain("### "@, secs[t].0);
        assert(entries_plain(secs[t].1));
        assert forall|i: int| 0 <= i < secs[t].1.len() implies good(
            entry_line((#[trigger] secs[t].1[i]).1),
        ) by {
            lemma_entry_line_plain(secs[t].1[i].1);
        }
    }
    assert(all_good(ls, good));
    lemma_merge_lines_good(ls, secs, ph, good);
    if let Some(out) = merge_lines(ls, secs, ph) {
        let u = find_unreleased(ls, 0)->0;
        assert(out.len() >= u + 1);
        assert(text::plain_lines(out)) by {
            assert forall|k: int| 0 <= k < out.len() implies text::plain_line(#[trigger] out[k]) by {
                assert(good(out[k]));
            }
        }
    }
}

/// For a changelog text that ends with a newline and has plain lines, and plain entries and
/// section names, merging edits its list of lines: the lines of the merged text are the merged
/// lines.
pub proof fn lemma_merge_text_lines(
    content: Seq<char>,
    secs: Seq<(Seq<char>, Seq<EntryModel>)>,
    ph: Seq<EntryModel>,
)
    requires
        text::ends_with(content, "\n"@),
        text::plain_lines(text::lines(content)),
        sections_plain(secs),
        entries_plain(ph),
    ensures
        merge(content, secs, ph) matches Some(r) ==> {
            &&& text::ends_with(r, "\n"@)
            &&& text::plain_lines(text::lines(r))
            &&& (secs.len() == 0 && ph.len() == 0 ==> r == content)
            &&& (secs.len() > 0 || ph.len() > 0 ==> merge_lines(text::lines(content), secs, ph) == Some(
                text::lines(r),
            ))
        },
{
    reveal_strlit("\n");
    let ls = text::lines(content);
    if secs.len() == 0 && ph.len() == 0 {
    } else if let Some(out) = merge_lines(ls, secs, ph) {
        lemma_merge_lines_plain(ls, secs, ph);
        let r = text::join_lines(out) + seq!['\n'];
        assert(merge(content, secs, ph) == Some(r));
        text::lemma_lines_join_plain(out);
        assert(r.take(r.len() - 1) == text::join_lines(out));
        assert(text::ends_with(r, "\n"@)) by {
            assert(r.skip(r.len() - 1) =~= "\n"@);
        }
    }
}

/// For a changelog text that does not end with a newline and has plain lines, and plain
/// entries and section names, the lines of the merged text are the merged lines, but for a
/// last empty one.
pub proof fn lemma_merge_unterminated_text_lines(
    content: Seq<char>,
    secs: Seq<(Seq<char>, Seq<EntryModel>)>,
    ph: Seq<EntryModel>,
)
    requires
        !text::ends_with(content, "\n"@),
        text::plain_lines(text::lines(content)),
        sections_plain(secs),
        entries_plain(ph),
    ensures
        merge(content, secs, ph) matches Some(r) ==> (secs.len() > 0 || ph.len() > 0 ==> (merge_lines(
            text::lines(content),
            secs,
            ph,
        ) matches Some(out) && text::lines(r) == if out.last().len() > 0 {
            out
        } else {
            out.drop_last()
        })),
{
    let ls = text::lines(content);
    if secs.len() > 0 || ph.len() > 0 {
        if let Some(out) = merge_lines(ls, secs, ph) {
            lemma_merge_lines_plain(ls, secs, ph);
            let r = text::join_lines(out);
            assert(merge(content, secs, ph) == Some(r));
            assert(text::no_newlines(out));
            assert(text::strip_cr_all(out) =~= out);
            let front = out.drop_last();
            assert(out =~= front.push(out.last()));
            text::lemma_join_push(front, out.last());
            assert(text::strip_cr_all(front) =~= front) by {
                assert forall|k: int| 0 <= k < front.len() implies text::strip_cr(#[trigger] front[k]) == front[k] by {
                    assert(front[k] == out[k]);
                }
            }
            if out.last().len() > 0 {
                text::lemma_lines_join_unterminated(out);
            } else if front.len() == 0 {
                assert(r =~= Seq::<char>::empty());
                assert(text::lines(Seq::<char>::empty()) =~= Seq::<Seq<char>>::empty());
            } else {
                assert(r =~= text::join_lines(front) + seq!['\n']);
                assert(text::no_newlines(front)) by {
                    assert forall|k: int| 0 <= k < front.len() implies !text::has_char(#[trigger] front[k], '\n') by {
                        assert(front[k] == out[k]);
                    }
                }
                text::lemma_lines_join_terminated(front);
            }
        }
    }
}

/// Merging entries into a changelog only inserts whole new lines: every line of the text is
/// kept, in order (for a text with plain lines, and plain entries and section names).
pub proof fn lemma_merge_keeps_text_lines(
    content: Seq<char>,
    secs: Seq<(Seq<char>, Seq<EntryModel>)>,
    ph: Seq<EntryModel>,
)
    requires
        text::plain_lines(text::lines(content)),
        sections_plain(secs),
        entries_plain(ph),
    ensures
        merge(content, secs, ph) matches Some(r) ==> subseq::is_subseq(text::lines(content), text::lines(r)),
{
    let ls = text::lines(content);
    lemma_merge_keeps_lines(ls, secs, ph);
    if secs.len() == 0 && ph.len() == 0 {
        subseq::lemma_subseq_refl(ls);
    } else if text::ends_with(content, "\n"@) {
        lemma_merge_text_lines(content, secs, ph);
    } else {
        lemma_merge_unterminated_text_lines(content, secs, ph);
        if content.len() > 0 {
            text::lemma_lines_last_nonempty(content);
        }
        if let Some(out) = merge_lines(ls, secs, ph) {
            if out.last().len() == 0 {
                lemma_merge_lines_plain(ls, secs, ph);
                subseq::lemma_subseq_drop_last(ls, out);
            }
        }
    }
}

/// Merging puts a bullet `- {text}` for every entry among the lines of the merged text (for a
/// text with plain lines, and plain entries and section names).
pub proof fn lemma_merge_adds_text_entries(
    content: Seq<char>,
    secs: Seq<(Seq<char>, Seq<EntryModel>)>,
    ph: Seq<EntryModel>,
)
    requires
        text::plain_lines(text::lines(content)),
        sections_plain(secs),
        entries_plain(ph),
    ensures
        merge(content, secs, ph) matches Some(r) ==> {
            &&& forall|i: int| 0 <= i < ph.len() ==> text::lines(r).contains(entry_line(#[trigger] ph[i].1))
            &&& forall|s: int, i: int|
                0 <= s < secs.len() && 0 <= i < secs[s].1.len() ==> text::lines(r).contains(
                    entry_line(#[trigger] secs[s].1[i].1),
                )
        },
{
    let ls = text::lines(content);
    lemma_merge_adds_entries(ls, secs, ph);
    if text::ends_with(content, "\n"@) {
        lemma_merge_text_lines(content, secs, ph);
    } else if secs.len() > 0 || ph.len() > 0 {
        lemma_merge_unterminated_text_lines(content, secs, ph);
        if let Some(out) = merge_lines(ls, secs, ph) {
            let lr = text::lines(with_final_newline(text::join_lines(out), content));
            reveal_strlit("- ");
            assert forall|x: Seq<char>| out.contains(x) && x.len() > 0 implies #[trigger] lr.contains(x) by {
                let k = choose|k: int| 0 <= k < out.len() && out[k] == x;
                if out.last().len() == 0 {
                    assert(k < out.len() - 1);
                    assert(lr[k] == x);
                } else {
                    assert(lr[k] == x);
                }
            }
            assert forall|i: int| 0 <= i < ph.len() implies lr.contains(entry_line(#[trigger] ph[i].1)) by {
                assert(entry_line(ph[i].1).len() > 0);
            }
            assert forall|s: int, i: int| 0 <= s < secs.len() && 0 <= i < secs[s].1.len() implies lr.contains(
                entry_line(#[trigger] secs[s].1[i].1),
            ) by {
                assert(entry_line(secs[s].1[i].1).len() > 0);
            }
        }
    }
}

// ---------------------------------------------------------------------------------------------
// Merging keeps pull-request order, as the merged text reads back.
// ---------------------------------------------------------------------------------------------

/// The body of the `## [Unreleased]` section: the lines after its heading, up to the next
/// `## ` heading or reference definition.
pub open spec fn unreleased_body(ls: Seq<Seq<char>>) -> Option<Seq<Seq<char>>> {
    match find_unreleased(ls, 0) {
        None => None,
        Some(u) => Some(ls.subrange(u + 1, next_boundary(ls, u + 1))),
    }
}

/// Whether the numbered bullets of a section body are in ascending order within the part
/// before its first `### ` heading and within each `### ` subsection: any two with no `### `
/// heading between them.
#[verifier::opaque]
pub open spec fn body_ascending(body: Seq<Seq<char>>) -> bool {
    forall|i: int, j: int|
        0 <= i < j < body.len() && (forall|k: int| i < k <= j ==> !is_h3(#[trigger] body[k]))
            ==> match (classify(#[trigger] body[i]), classify(#[trigger] body[j])) {
            (BulletModel::Bullet { pr: Some(a), .. }, BulletModel::Bullet { pr: Some(b), .. }) => a
                <= b,
            _ => true,
        }
}

/// Whether an entry's bullet reads back with the entry's number: its text's `([#N]` names it.
pub open spec fn entry_reads_back(e: EntryModel) -> bool {
    bullet_pr(e.1) == Some(e.0)
}

/// Whether every entry reads back with its number.
pub open spec fn entries_read_back(es: Seq<EntryModel>) -> bool {
    forall|i: int| 0 <= i < es.len() ==> entry_reads_back(#[trigger] es[i])
}

/// Whether every entry of every section reads back with its number.
pub open spec fn sections_read_back(secs: Seq<(Seq<char>, Seq<EntryModel>)>) -> bool {
    forall|s: int| 0 <= s < secs.len() ==> entries_read_back(#[trigger] secs[s].1)
}

/// Whether body lines are what classifying their texts gives.
pub open spec fn self_classified(items: Seq<BulletModel>) -> bool {
    forall|k: int| 0 <= k < items.len() ==> classify(line_text(#[trigger] items[k])) == items[k]
}

/// Whether a subsection has a `### ` heading and body lines that classify as themselves.
pub open spec fn sub_reads_back(sub: SubsectionModel) -> bool {
    is_h3(sub.heading) && self_classified(sub.body)
}

/// What starts with a non-white character is its own start after trimming.
proof fn lemma_trim_start_plain(s: Seq<char>)
    requires
        s.len() > 0,
        !text::is_white(s[0]),
    ensures
        text::trim_start(s) == s,
{
}

/// Bullet lines, empty lines and `### ` headings do not end the section; bullet lines and
/// empty lines are no `### ` headings, and a `### ` heading is no bullet.
proof fn lemma_line_kinds(t: Seq<char>, name: Seq<char>, h: Seq<char>)
    ensures
        !is_boundary(entry_line(t)),
        !is_boundary(Seq::<char>::empty()),
        !is_boundary("### "@ + name),
        is_h3("### "@ + name),
        is_h3(h) ==> classify(h) is Prose,
        classify(Seq::<char>::empty()) == BulletModel::Prose(Seq::<char>::empty()),
{
    reveal_strlit("- ");
    reveal_strlit("## ");
    reveal_strlit("### ");
    reveal_strlit("[");
    let e = entry_line(t);
    assert(!text::is_white('-'));
    lemma_trim_start_plain(e);
    assert(e[0] == '-');
    if text::starts_with(e, "## "@) {
        assert(e.take(3)[0] == e[0]);
    }
    if text::starts_with(e, "["@) {
        assert(e.take(1)[0] == e[0]);
    }
    let g = "### "@ + name;
    assert(!text::is_white('#'));
    lemma_trim_start_plain(g);
    assert(g[2] == '#');
    assert(g[0] == '#');
    if text::starts_with(g, "## "@) {
        assert(g.take(3)[2] == g[2]);
    }
    if text::starts_with(g, "["@) {
        assert(g.take(1)[0] == g[0]);
    }
    assert(g.take(4) =~= "### "@);
    assert(text::trim_start(Seq::<char>::empty()) == Seq::<char>::empty());
    if is_h3(h) {
        let th = text::trim_start(h);
        assert(th[0] == '#');
        assert(!text::starts_with(th, "- "@));
    }
}

/// The bullet of an entry that reads back classifies as itself.
proof fn lemma_entry_bullet_self(e: EntryModel)
    requires
        entry_reads_back(e),
    ensures
        classify(entry_line(e.1)) == (BulletModel::Bullet { pr: Some(e.0), text: entry_line(e.1) }),
{
    reveal_strlit("- ");
    let l = entry_line(e.1);
    assert(!text::is_white('-'));
    lemma_trim_start_plain(l);
    assert(l.take(2) =~= "- "@);
    assert(l.skip(2) =~= e.1);
}

/// Inserting bullets of entries that read back keeps body lines classifying as themselves.
proof fn lemma_insert_entries_self(items: Seq<BulletModel>, es: Seq<EntryModel>)
    requires
        self_classified(items),
        entries_read_back(es),
    ensures
        self_classified(insert_entries(items, es)),
    decreases es.len(),
{
    if es.len() > 0 {
        let line = entry_line(es[0].1);
        let pos = bullet_insert_pos(items, es[0].0);
        lemma_first_greater_from(items, es[0].0, 0);
        lemma_last_bullet_below(items, items.len() as int);
        let b = BulletModel::Bullet { pr: Some(es[0].0), text: line };
        assert(entry_reads_back(es[0]));
        lemma_entry_bullet_self(es[0]);
        let next = items.insert(pos, b);
        assert forall|k: int| 0 <= k < next.len() implies classify(line_text(#[trigger] next[k]))
            == next[k] by {
            if k < pos {
                assert(next[k] == items[k]);
            } else if k > pos {
                assert(next[k] == items[k - 1]);
            }
        }
        assert forall|i: int| 0 <= i < es.drop_first().len() implies entry_reads_back(
            #[trigger] es.drop_first()[i],
        ) by {
            assert(es.drop_first()[i] == es[i + 1]);
        }
        lemma_insert_entries_self(next, es.drop_first());
    }
}

/// Sorting keeps entries reading back.
proof fn lemma_sort_entries_read_back(es: Seq<EntryModel>)
    requires
        entries_read_back(es),
    ensures
        entries_read_back(sort_entries(es)),
    decreases es.len(),
{
    if es.len() > 0 {
        let p = es.drop_last();
        assert forall|i: int| 0 <= i < p.len() implies entry_reads_back(#[trigger] p[i]) by {
            assert(p[i] == es[i]);
        }
        lemma_sort_entries_read_back(p);
        let sp = sort_entries(p);
        let x = es.last();
        let pos = upper_pos(sp, x.0, 0);
        lemma_upper_pos(sp, x.0, 0);
        let out = sp.insert(pos, x);
        assert(entry_reads_back(es[es.len() - 1]));
        assert forall|i: int| 0 <= i < out.len() implies entry_reads_back(#[trigger] out[i]) by {
            if i < pos {
                assert(out[i] == sp[i]);
            } else if i > pos {
                assert(out[i] == sp[i - 1]);
            }
        }
    }
}

/// The subsections parsed from lines read back.
proof fn lemma_parse_subs_read_back(rest: Seq<Seq<char>>, i: int)
    requires
        0 <= i,
    ensures
        forall|k: int|
            0 <= k < parse_subs_from(rest, i).len() ==> sub_reads_back(
                #[trigger] parse_subs_from(rest, i)[k],
            ),
    decreases rest.len() - i,
{
    if i < rest.len() {
        if is_h3(rest[i]) {
            let j = next_h3(rest, i + 1);
            if i < j <= rest.len() {
                lemma_parse_subs_read_back(rest, j);
                let sub = make_sub(rest, i, j);
                let p = parse_subs_from(rest, i);
                let t = parse_subs_from(rest, j);
                assert(p == seq![sub] + t);
                lemma_texts_classify_all(rest.subrange(i + 1, j));
                assert(render(sub) =~= rest.subrange(i, j));
                assert forall|k: int| 0 <= k < sub.body.len() implies classify(
                    line_text(#[trigger] sub.body[k]),
                ) == sub.body[k] by {
                    assert(line_text(sub.body[k]) == rest[i + 1 + k]);
                }
                assert forall|k: int| 0 <= k < p.len() implies sub_reads_back(#[trigger] p[k]) by {
                    if k > 0 {
                        assert(p[k] == t[k - 1]);
                    }
                }
            } else {
                assert(parse_subs_from(rest, i) =~= Seq::<SubsectionModel>::empty());
            }
        } else {
            lemma_parse_subs_read_back(rest, i + 1);
            assert(parse_subs_from(rest, i) == parse_subs_from(rest, i + 1));
        }
    } else {
        assert(parse_subs_from(rest, i) =~= Seq::<SubsectionModel>::empty());
    }
}

/// Merging the entries of sections that read back keeps subsections reading back.
proof fn lemma_insert_all_sections_read_back(
    subs: Seq<SubsectionModel>,
    secs: Seq<(Seq<char>, Seq<EntryModel>)>,
)
    requires
        forall|k: int| 0 <= k < subs.len() ==> sub_reads_back(#[trigger] subs[k]),
        sections_read_back(secs),
    ensures
        forall|k: int|
            0 <= k < insert_all_sections(subs, secs).len() ==> sub_reads_back(
                #[trigger] insert_all_sections(subs, secs)[k],
            ),
    decreases secs.len(),
{
    if secs.len() > 0 {
        let name = secs[0].0;
        let sorted = sort_entries(secs[0].1);
        assert(entries_read_back(secs[0].1));
        lemma_sort_entries_read_back(secs[0].1);
        let next = insert_section(subs, name, secs[0].1);
        match find_sub(subs, name, 0) {
            Some(k) => {
                lemma_find_sub(subs, name, 0);
                let old_sub = subs[k];
                lemma_insert_entries_self(old_sub.body, sorted);
                assert forall|j: int| 0 <= j < next.len() implies sub_reads_back(#[trigger] next[j]) by {
                    if j != k {
                        assert(next[j] == subs[j]);
                    }
                }
            },
            None => {
                let pos = first_higher_rank(subs, canonical_rank(name), 0);
                lemma_first_higher_rank(subs, canonical_rank(name), 0);
                let ns = new_sub(name, sorted);
                lemma_line_kinds(seq![], name, seq![]);
                assert forall|m: int| 0 <= m < ns.body.len() implies classify(
                    line_text(#[trigger] ns.body[m]),
                ) == ns.body[m] by {
                    if m > 0 {
                        assert(entry_reads_back(sorted[m - 1]));
                        lemma_entry_bullet_self(sorted[m - 1]);
                    }
                }
                assert forall|j: int| 0 <= j < next.len() implies sub_reads_back(#[trigger] next[j]) by {
                    if j < pos {
                        assert(next[j] == subs[j]);
                    } else if j > pos {
                        assert(next[j] == subs[j - 1]);
                    }
                }
            },
        }
        assert forall|s: int| 0 <= s < secs.drop_first().len() implies entries_read_back(
            #[trigger] secs.drop_first()[s].1,
        ) by {
            assert(secs.drop_first()[s] == secs[s + 1]);
        }
        lemma_insert_all_sections_read_back(next, secs.drop_first());
        assert(insert_all_sections(subs, secs) == insert_all_sections(next, secs.drop_first()));
    }
}

/// Ascending bullets followed by other lines stay ascending.
proof fn lemma_ascending_then_prose(items: Seq<BulletModel>, more: Seq<BulletModel>)
    requires
        bullets_ascending(items),
        forall|k: int| 0 <= k < more.len() ==> (#[trigger] more[k]) is Prose,
    ensures
        bullets_ascending(items + more),
{
    let all = items + more;
    assert forall|i: int, j: int| 0 <= i < j < all.len() implies match (#[trigger] all[i], #[trigger] all[j]) {
        (BulletModel::Bullet { pr: Some(a), .. }, BulletModel::Bullet { pr: Some(b), .. }) => a <= b,
        _ => true,
    } by {
        if j >= items.len() {
            assert(all[j] == more[j - items.len()]);
        } else {
            assert(all[i] == items[i] && all[j] == items[j]);
        }
    }
}

/// The lines of a range with no `### ` heading in an ascending body have their bullets in order.
#[verifier::spinoff_prover]
proof fn lemma_body_ascending_range(body: Seq<Seq<char>>, lo: int, hi: int)
    requires
        body_ascending(body),
        0 <= lo <= hi <= body.len(),
        forall|k: int| lo <= k < hi ==> !is_h3(#[trigger] body[k]),
    ensures
        bullets_ascending(classify_all(body.subrange(lo, hi))),
{
    reveal(body_ascending);
    let items = classify_all(body.subrange(lo, hi));
    assert forall|a: int, c: int| 0 <= a < c < items.len() implies match (
        #[trigger] items[a],
        #[trigger] items[c],
    ) {
        (BulletModel::Bullet { pr: Some(x), .. }, BulletModel::Bullet { pr: Some(y), .. }) => x <= y,
        _ => true,
    } by {
        assert(items[a] == classify(body[lo + a]));
        assert(items[c] == classify(body[lo + c]));
        assert forall|k: int| lo + a < k <= lo + c implies !is_h3(#[trigger] body[k]) by {}
    }
}

/// The lines from `h` on of an ascending body are an ascending body.
#[verifier::spinoff_prover]
proof fn lemma_body_ascending_skip(body: Seq<Seq<char>>, h: int)
    requires
        body_ascending(body),
        0 <= h <= body.len(),
    ensures
        body_ascending(body.skip(h)),
{
    reveal(body_ascending);
    let r = body.skip(h);
    assert forall|i: int, j: int|
        0 <= i < j < r.len() && (forall|k: int| i < k <= j ==> !is_h3(#[trigger] r[k])) implies match (
            classify(#[trigger] r[i]),
            classify(#[trigger] r[j]),
        ) {
            (BulletModel::Bullet { pr: Some(a), .. }, BulletModel::Bullet { pr: Some(b), .. }) => a
                <= b,
            _ => true,
        } by {
        assert(r[i] == body[h + i] && r[j] == body[h + j]);
        assert forall|k: int| h + i < k <= h + j implies !is_h3(#[trigger] body[k]) by {
            assert(r[k - h] == body[k]);
        }
    }
}

/// Lines whose classification is ascending throughout are an ascending body.
proof fn lemma_body_ascending_plain(ls: Seq<Seq<char>>)
    requires
        bullets_ascending(classify_all(ls)),
    ensures
        body_ascending(ls),
{
    reveal(body_ascending);
    assert forall|i: int, j: int|
        0 <= i < j < ls.len() && (forall|k: int| i < k <= j ==> !is_h3(#[trigger] ls[k])) implies match (
            classify(#[trigger] ls[i]),
            classify(#[trigger] ls[j]),
        ) {
            (BulletModel::Bullet { pr: Some(a), .. }, BulletModel::Bullet { pr: Some(b), .. }) => a
                <= b,
            _ => true,
        } by {
        assert(classify_all(ls)[i] == classify(ls[i]));
        assert(classify_all(ls)[j] == classify(ls[j]));
    }
}

/// A `### ` heading followed by lines whose classification is ascending is an ascending body.
proof fn lemma_body_ascending_headed(h: Seq<char>, ls: Seq<Seq<char>>)
    requires
        is_h3(h),
        bullets_ascending(classify_all(ls)),
    ensures
        body_ascending(seq![h] + ls),
{
    reveal(body_ascending);
    lemma_line_kinds(seq![], seq![], h);
    let all = seq![h] + ls;
    assert forall|i: int, j: int|
        0 <= i < j < all.len() && (forall|k: int| i < k <= j ==> !is_h3(#[trigger] all[k])) implies match (
            classify(#[trigger] all[i]),
            classify(#[trigger] all[j]),
        ) {
            (BulletModel::Bullet { pr: Some(a), .. }, BulletModel::Bullet { pr: Some(b), .. }) => a
                <= b,
            _ => true,
        } by {
        if i > 0 {
            assert(all[i] == ls[i - 1] && all[j] == ls[j - 1]);
            assert(classify_all(ls)[i - 1] == classify(ls[i - 1]));
            assert(classify_all(ls)[j - 1] == classify(ls[j - 1]));
        }
    }
}

/// Two ascending bodies make one when the second starts with a `### ` heading.
#[verifier::spinoff_prover]
#[verifier::rlimit(50)]
proof fn lemma_body_ascending_concat(a: Seq<Seq<char>>, b: Seq<Seq<char>>)
    requires
        body_ascending(a),
        body_ascending(b),
        b.len() > 0 ==> is_h3(b[0]),
    ensures
        body_ascending(a + b),
{
    reveal(body_ascending);
    let all = a + b;
    assert forall|i: int, j: int|
        0 <= i < j < all.len() && (forall|k: int| i < k <= j ==> !is_h3(#[trigger] all[k])) implies match (
            classify(#[trigger] all[i]),
            classify(#[trigger] all[j]),
        ) {
            (BulletModel::Bullet { pr: Some(x), .. }, BulletModel::Bullet { pr: Some(y), .. }) => x
                <= y,
            _ => true,
        } by {
        if j < a.len() {
            assert(all[i] == a[i] && all[j] == a[j]);
            assert forall|k: int| i < k <= j implies !is_h3(#[trigger] a[k]) by {
                assert(all[k] == a[k]);
            }
        } else if i >= a.len() {
            let n = a.len() as int;
            assert(all[i] == b[i - n] && all[j] == b[j - n]);
            assert forall|k: int| i - n < k <= j - n implies !is_h3(#[trigger] b[k]) by {
                assert(all[k + n] == b[k]);
            }
        } else {
            assert(all[a.len() as int] == b[0]);
            assert(is_h3(all[a.len() as int]));
        }
    }
}

/// A subsection's lines, and what follows them up to the next heading, classify as its body
/// followed by other lines.
proof fn lemma_sub_lines_ascending(sub: SubsectionModel, extra: Seq<Seq<char>>)
    requires
        sub_reads_back(sub),
        bullets_ascending(sub.body),
        forall|k: int| 0 <= k < extra.len() ==> (#[trigger] extra[k]).len() == 0,
    ensures
        body_ascending(render(sub) + extra),
{
    lemma_line_kinds(seq![], seq![], seq![]);
    let ls = texts(sub.body) + extra;
    assert(classify_all(texts(sub.body)) =~= sub.body);
    let more = classify_all(extra);
    assert forall|k: int| 0 <= k < more.len() implies (#[trigger] more[k]) is Prose by {
        assert(extra[k] =~= Seq::<char>::empty());
    }
    lemma_ascending_then_prose(sub.body, more);
    assert(classify_all(ls) =~= sub.body + more);
    lemma_body_ascending_headed(sub.heading, ls);
    assert(render(sub) + extra =~= seq![sub.heading] + ls);
}

/// The blocks of subsections that read back with ascending bullets are an ascending body that
/// starts with a `### ` heading.
proof fn lemma_blocks_ascending(subs: Seq<SubsectionModel>)
    requires
        forall|k: int| 0 <= k < subs.len() ==> sub_reads_back(#[trigger] subs[k]),
        subs_ascending(subs),
    ensures
        body_ascending(blocks(subs)),
        subs.len() > 0 ==> blocks(subs).len() > 0 && is_h3(blocks(subs)[0]),
    decreases subs.len(),
{
    if subs.len() == 0 {
        reveal(body_ascending);
        assert(blocks(subs) =~= Seq::<Seq<char>>::empty());
    } else {
        let d = subs.drop_last();
        let x = subs.last();
        assert forall|k: int| 0 <= k < d.len() implies sub_reads_back(#[trigger] d[k]) by {
            assert(d[k] == subs[k]);
        }
        assert forall|k: int| 0 <= k < d.len() implies bullets_ascending(#[trigger] d[k].body) by {
            assert(d[k] == subs[k]);
        }
        lemma_blocks_ascending(d);
        assert(sub_reads_back(subs[subs.len() - 1]));
        assert(bullets_ascending(subs[subs.len() - 1].body));
        assert forall|k: int| 0 <= k < gap(render(x)).len() implies (#[trigger] gap(render(x))[k]).len()
            == 0 by {
        }
        lemma_sub_lines_ascending(x, gap(render(x)));
        lemma_body_ascending_concat(blocks(d), block(x));
        if d.len() == 0 {
            assert(blocks(d) =~= Seq::<Seq<char>>::empty());
            assert(blocks(subs) =~= block(x));
        } else {
            assert(blocks(subs)[0] == blocks(d)[0]);
        }
    }
}

/// The new section body is an ascending body when the prelude's bullets and each subsection's
/// are in order and read back.
#[verifier::spinoff_prover]
#[verifier::rlimit(50)]
proof fn lemma_new_body_ascending(np: Seq<Seq<char>>, subs: Seq<SubsectionModel>, pitems: Seq<BulletModel>)
    requires
        classify_all(np) == pitems,
        bullets_ascending(pitems),
        forall|k: int| 0 <= k < subs.len() ==> sub_reads_back(#[trigger] subs[k]),
        subs_ascending(subs),
    ensures
        body_ascending(assemble_body(np, subs)),
{
    let ab = assemble_body(np, subs);
    lemma_line_kinds(seq![], seq![], seq![]);
    let sep = seq![Seq::<char>::empty()];
    let np2 = if np.len() > 0 && !ends_blank(np) {
        np.push(seq![])
    } else {
        np
    };
    let more = classify_all(np2).skip(np.len() as int);
    assert(classify_all(np2) =~= pitems + more);
    assert forall|k: int| 0 <= k < more.len() implies (#[trigger] more[k]) is Prose by {
        assert(np2[np.len() + k] =~= Seq::<char>::empty());
    }
    lemma_ascending_then_prose(pitems, more);
    lemma_body_ascending_plain(np2);
    assert(np + sep =~= np.push(seq![]));
    if subs.len() > 0 {
        let d = subs.drop_last();
        let x = subs.last();
        assert forall|k: int| 0 <= k < d.len() implies sub_reads_back(#[trigger] d[k]) by {
            assert(d[k] == subs[k]);
        }
        assert forall|k: int| 0 <= k < d.len() implies bullets_ascending(#[trigger] d[k].body) by {
            assert(d[k] == subs[k]);
        }
        lemma_blocks_ascending(d);
        assert(sub_reads_back(subs[subs.len() - 1]));
        assert(bullets_ascending(subs[subs.len() - 1].body));
        let ra = render_all(subs);
        let tail_gap: Seq<Seq<char>> = if ends_blank(np2 + ra) {
            seq![]
        } else {
            sep
        };
        assert forall|k: int| 0 <= k < tail_gap.len() implies (#[trigger] tail_gap[k]).len() == 0 by {}
        lemma_sub_lines_ascending(x, tail_gap);
        let rr = ra + tail_gap;
        assert(rr =~= blocks(d) + (render(x) + tail_gap));
        lemma_body_ascending_concat(blocks(d), render(x) + tail_gap);
        assert(rr[0] == if d.len() == 0 { x.heading } else { blocks(d)[0] });
        lemma_body_ascending_concat(np2, rr);
        assert((np2 + ra).push(seq![]) =~= np2 + (ra + sep));
        assert(ab =~= np2 + rr);
    } else {
        let tail_gap: Seq<Seq<char>> = if ends_blank(np) {
            seq![]
        } else {
            sep
        };
        assert(ab =~= np + tail_gap);
        let more2 = classify_all(ab).skip(np.len() as int);
        assert(classify_all(ab) =~= pitems + more2);
        assert forall|k: int| 0 <= k < more2.len() implies (#[trigger] more2[k]) is Prose by {
            assert(ab[np.len() + k] =~= Seq::<char>::empty());
        }
        lemma_ascending_then_prose(pitems, more2);
        lemma_body_ascending_plain(ab);
    }
}

/// The first boundary line from `j` is `x` when no line before it is one.
proof fn lemma_next_boundary_is(ls: Seq<Seq<char>>, j: int, x: int)
    requires
        0 <= j <= x <= ls.len(),
        forall|k: int| j <= k < x ==> !is_boundary(#[trigger] ls[k]),
        x < ls.len() ==> is_boundary(ls[x]),
    ensures
        next_boundary(ls, j) == x,
    decreases x - j,
{
    if j < x {
        lemma_next_boundary_is(ls, j + 1, x);
    }
}

/// [`next_boundary`] stops at a boundary line, or at the end.
proof fn lemma_next_boundary_stops(ls: Seq<Seq<char>>, j: int)
    requires
        0 <= j <= ls.len(),
    ensures
        next_boundary(ls, j) < ls.len() ==> is_boundary(ls[next_boundary(ls, j)]),
    decreases ls.len() - j,
{
    if j < ls.len() && !is_boundary(ls[j]) {
        lemma_next_boundary_stops(ls, j + 1);
    }
}

/// [`find_unreleased`] finds the same heading in lines that agree up to it.
proof fn lemma_find_unreleased_prefix(ls: Seq<Seq<char>>, out: Seq<Seq<char>>, i: int, u: int)
    requires
        0 <= i <= u,
        u < ls.len(),
        u < out.len(),
        forall|k: int| 0 <= k <= u ==> out[k] == ls[k],
        find_unreleased(ls, i) == Some(u),
    ensures
        find_unreleased(out, i) == Some(u),
    decreases u - i,
{
    if i < u {
        assert(out[i] == ls[i]);
        lemma_find_unreleased_prefix(ls, out, i + 1, u);
    } else {
        lemma_find_unreleased(ls, u);
        assert(out[u] == ls[u]);
    }
}

/// Merging entries whose bullets read back with their numbers keeps the numbered bullets in
/// ascending order, as the merged lines read back: when those of the `## [Unreleased]` section
/// are in order before its first `### ` heading and within each `### ` subsection, so are
/// those of the merged section, new bullets and any new subsection included.
#[verifier::spinoff_prover]
#[verifier::rlimit(50)]
pub proof fn lemma_merge_keeps_order(
    ls: Seq<Seq<char>>,
    secs: Seq<(Seq<char>, Seq<EntryModel>)>,
    ph: Seq<EntryModel>,
)
    requires
        unreleased_body(ls) matches Some(body) ==> body_ascending(body),
        entries_read_back(ph),
        sections_read_back(secs),
    ensures
        merge_lines(ls, secs, ph) matches Some(out) ==> (unreleased_body(out) matches Some(nb)
            && body_ascending(nb)),
{
    if let Some(out) = merge_lines(ls, secs, ph) {
        let u = find_unreleased(ls, 0)->0;
        let b = next_boundary(ls, u + 1);
        let body = ls.subrange(u + 1, b);
        let h = next_h3(body, 0);
        lemma_next_h3(body, 0);
        lemma_next_boundary(ls, u + 1);
        lemma_next_boundary_stops(ls, u + 1);
        let prelude = body.take(h);
        let rest = body.skip(h);
        let sorted = sort_entries(ph);
        let np = splice(prelude, ph);
        let parsed = parse_subs_from(rest, 0);
        let subs = insert_all_sections(parsed, secs);
        let ab = assemble_body(np, subs);
        assert(body_ascending(body));
        // The prelude's bullets are in order, and stay so with the placeholders.
        lemma_body_ascending_range(body, 0, h);
        assert(body.subrange(0, h) =~= prelude);
        lemma_insert_entries_ascending(classify_all(prelude), sorted);
        lemma_sort_entries_read_back(ph);
        assert(self_classified(classify_all(prelude))) by {
            assert forall|k: int| 0 <= k < classify_all(prelude).len() implies classify(
                line_text(#[trigger] classify_all(prelude)[k]),
            ) == classify_all(prelude)[k] by {
                lemma_texts_classify_all(prelude);
                assert(texts(classify_all(prelude))[k] == prelude[k]);
            }
        }
        lemma_insert_entries_self(classify_all(prelude), sorted);
        let pitems = insert_entries(classify_all(prelude), sorted);
        assert(classify_all(np) =~= pitems);
        // The subsections' bullets are in order, and stay so with the new entries.
        lemma_body_ascending_skip(body, h);
        lemma_parse_subs_ascending(rest, 0);
        lemma_insert_all_sections_ascending(parsed, secs);
        lemma_parse_subs_read_back(rest, 0);
        lemma_insert_all_sections_read_back(parsed, secs);
        // The new body is an ascending body and does not end the section early.
        assert(forall|k: int| 0 <= k < subs.len() ==> sub_reads_back(#[trigger] subs[k]));
        // No line of the new body ends the section.
        let good = |l: Seq<char>| !is_boundary(l);
        assert(all_good(body, good)) by {
            assert forall|k: int| 0 <= k < body.len() implies good(#[trigger] body[k]) by {
                assert(body[k] == ls[u + 1 + k]);
            }
        }
        lemma_line_kinds(seq![], seq![], seq![]);
        assert forall|i: int| 0 <= i < ph.len() implies good(entry_line((#[trigger] ph[i]).1)) by {
            lemma_line_kinds(ph[i].1, seq![], seq![]);
        }
        assert forall|t: int| 0 <= t < secs.len() implies good("### "@ + (#[trigger] secs[t]).0)
            && entries_good(secs[t].1, good) by {
            lemma_line_kinds(seq![], secs[t].0, seq![]);
            assert forall|i: int| 0 <= i < secs[t].1.len() implies good(
                entry_line((#[trigger] secs[t].1[i]).1),
            ) by {
                lemma_line_kinds(secs[t].1[i].1, seq![], seq![]);
            }
        }
        lemma_merged_body_good(body, secs, ph, good);
        lemma_new_body_ascending(np, subs, pitems);
        // The merged lines read back this body.
        let head = ls.take(u + 1);
        let tail = ls.skip(b);
        assert(out == head + ab + tail);
        lemma_find_unreleased(ls, 0);
        lemma_find_unreleased_prefix(ls, out, 0, u);
        let e = u + 1 + ab.len();
        assert forall|k: int| u + 1 <= k < e implies !is_boundary(#[trigger] out[k]) by {
            assert(out[k] == ab[k - u - 1]);
            assert(good(ab[k - u - 1]));
        }
        if e < out.len() {
            assert(out[e] == ls[b]);
        }
        lemma_next_boundary_is(out, u + 1, e);
        assert(out.subrange(u + 1, e) =~= ab);
    }
}

/// The first lines of an ascending body are an ascending body.
proof fn lemma_body_ascending_take(body: Seq<Seq<char>>, k: int)
    requires
        body_ascending(body),
        0 <= k <= body.len(),
    ensures
        body_ascending(body.take(k)),
{
    reveal(body_ascending);
    let t = body.take(k);
    assert forall|i: int, j: int|
        0 <= i < j < t.len() && (forall|m: int| i < m <= j ==> !is_h3(#[trigger] t[m])) implies match (
            classify(#[trigger] t[i]),
            classify(#[trigger] t[j]),
        ) {
            (BulletModel::Bullet { pr: Some(a), .. }, BulletModel::Bullet { pr: Some(b), .. }) => a
                <= b,
            _ => true,
        } by {
        assert(t[i] == body[i] && t[j] == body[j]);
        assert forall|m: int| i < m <= j implies !is_h3(#[trigger] body[m]) by {
            assert(t[m] == body[m]);
        }
    }
}

/// Dropping a last empty line keeps the `## [Unreleased]` body ascending: it is the same body,
/// or that body without its last line.
proof fn lemma_unreleased_body_drop_blank(out: Seq<Seq<char>>)
    requires
        out.len() > 0,
        out.last().len() == 0,
        unreleased_body(out) matches Some(nb) && body_ascending(nb),
    ensures
        unreleased_body(out.drop_last()) matches Some(nb2) && body_ascending(nb2),
{
    reveal_strlit("## [Unreleased]");
    reveal_strlit("## ");
    reveal_strlit("[");
    let front = out.drop_last();
    let u = find_unreleased(out, 0)->0;
    lemma_find_unreleased(out, 0);
    let last = out.len() - 1;
    assert(text::trim(out[last]) =~= Seq::<char>::empty());
    assert(u < last);
    lemma_find_unreleased_prefix(out, front, 0, u);
    let e = next_boundary(out, u + 1);
    lemma_next_boundary(out, u + 1);
    lemma_next_boundary_stops(out, u + 1);
    assert(text::trim_start(out[last]) =~= Seq::<char>::empty());
    assert(!is_boundary(out[last]));
    let nb = out.subrange(u + 1, e);
    if e < out.len() {
        assert(e < last);
        assert forall|k: int| u + 1 <= k < e implies !is_boundary(#[trigger] front[k]) by {
            assert(front[k] == out[k]);
        }
        assert(front[e] == out[e]);
        lemma_next_boundary_is(front, u + 1, e);
        assert(front.subrange(u + 1, e) =~= nb);
    } else {
        assert forall|k: int| u + 1 <= k < front.len() implies !is_boundary(#[trigger] front[k]) by {
            assert(front[k] == out[k]);
        }
        lemma_next_boundary_is(front, u + 1, front.len() as int);
        lemma_body_ascending_take(nb, nb.len() - 1);
        assert(front.subrange(u + 1, front.len() as int) =~= nb.take(nb.len() - 1));
    }
}

/// Whether every line satisfies `good`.
pub open spec fn all_good(ls: Seq<Seq<char>>, good: spec_fn(Seq<char>) -> bool) -> bool {
    forall|k: int| 0 <= k < ls.len() ==> good(#[trigger] ls[k])
}

/// Whether `good` holds of the bullet of every entry.
pub open spec fn entries_good(es: Seq<EntryModel>, good: spec_fn(Seq<char>) -> bool) -> bool {
    forall|i: int| 0 <= i < es.len() ==> good(entry_line((#[trigger] es[i]).1))
}

/// Whether `good` holds of every line merging can add: an empty line, the bullet of every
/// entry, and the heading of every section.
pub open spec fn adds_good(
    secs: Seq<(Seq<char>, Seq<EntryModel>)>,
    ph: Seq<EntryModel>,
    good: spec_fn(Seq<char>) -> bool,
) -> bool {
    &&& good(seq![])
    &&& entries_good(ph, good)
    &&& forall|s: int|
        0 <= s < secs.len() ==> good("### "@ + (#[trigger] secs[s]).0) && entries_good(secs[s].1, good)
}

/// Concatenation keeps lines good.
proof fn lemma_all_good_concat(a: Seq<Seq<char>>, b: Seq<Seq<char>>, good: spec_fn(Seq<char>) -> bool)
    requires
        all_good(a, good),
        all_good(b, good),
    ensures
        all_good(a + b, good),
{
    assert forall|k: int| 0 <= k < (a + b).len() implies good(#[trigger] (a + b)[k]) by {
        if k < a.len() {
            assert((a + b)[k] == a[k]);
        } else {
            assert((a + b)[k] == b[k - a.len()]);
        }
    }
}

/// Inserting the bullets of good entries keeps body lines good.
proof fn lemma_insert_entries_good(items: Seq<BulletModel>, es: Seq<EntryModel>, good: spec_fn(Seq<char>) -> bool)
    requires
        all_good(texts(items), good),
        entries_good(es, good),
    ensures
        all_good(texts(insert_entries(items, es)), good),
    decreases es.len(),
{
    if es.len() > 0 {
        let line = entry_line(es[0].1);
        let pos = bullet_insert_pos(items, es[0].0);
        lemma_first_greater_from(items, es[0].0, 0);
        lemma_last_bullet_below(items, items.len() as int);
        let b = BulletModel::Bullet { pr: Some(es[0].0), text: line };
        assert(good(line));
        assert(texts(items.insert(pos, b)) =~= texts(items).insert(pos, line));
        let nt = texts(items).insert(pos, line);
        assert forall|k: int| 0 <= k < nt.len() implies good(#[trigger] nt[k]) by {
            if k < pos {
                assert(nt[k] == texts(items)[k]);
            } else if k > pos {
                assert(nt[k] == texts(items)[k - 1]);
            }
        }
        assert forall|i: int| 0 <= i < es.drop_first().len() implies good(
            entry_line((#[trigger] es.drop_first()[i]).1),
        ) by {
            assert(es.drop_first()[i] == es[i + 1]);
        }
        lemma_insert_entries_good(items.insert(pos, b), es.drop_first(), good);
    }
}

/// Sorting keeps entries good.
proof fn lemma_sort_entries_good(es: Seq<EntryModel>, good: spec_fn(Seq<char>) -> bool)
    requires
        entries_good(es, good),
    ensures
        entries_good(sort_entries(es), good),
    decreases es.len(),
{
    if es.len() > 0 {
        let p = es.drop_last();
        assert forall|i: int| 0 <= i < p.len() implies good(entry_line((#[trigger] p[i]).1)) by {
            assert(p[i] == es[i]);
        }
        lemma_sort_entries_good(p, good);
        let sp = sort_entries(p);
        let x = es.last();
        let pos = upper_pos(sp, x.0, 0);
        lemma_upper_pos(sp, x.0, 0);
        let out = sp.insert(pos, x);
        assert(good(entry_line(es[es.len() - 1].1)));
        assert forall|i: int| 0 <= i < out.len() implies good(entry_line((#[trigger] out[i]).1)) by {
            if i < pos {
                assert(out[i] == sp[i]);
            } else if i > pos {
                assert(out[i] == sp[i - 1]);
            }
        }
    }
}

/// The subsections parsed from good lines have good lines.
proof fn lemma_parse_subs_good(rest: Seq<Seq<char>>, i: int, good: spec_fn(Seq<char>) -> bool)
    requires
        0 <= i,
        all_good(rest, good),
    ensures
        forall|k: int|
            0 <= k < parse_subs_from(rest, i).len() ==> all_good(
                render(#[trigger] parse_subs_from(rest, i)[k]),
                good,
            ),
    decreases rest.len() - i,
{
    if i < rest.len() {
        if is_h3(rest[i]) {
            let j = next_h3(rest, i + 1);
            if i < j <= rest.len() {
                lemma_parse_subs_good(rest, j, good);
                let sub = make_sub(rest, i, j);
                let p = parse_subs_from(rest, i);
                let t = parse_subs_from(rest, j);
                assert(p == seq![sub] + t);
                lemma_texts_classify_all(rest.subrange(i + 1, j));
                assert(render(sub) =~= rest.subrange(i, j));
                assert forall|m: int| 0 <= m < render(sub).len() implies good(#[trigger] render(sub)[m]) by {
                    assert(render(sub)[m] == rest[i + m]);
                }
                assert forall|k: int| 0 <= k < p.len() implies all_good(render(#[trigger] p[k]), good) by {
                    if k > 0 {
                        assert(p[k] == t[k - 1]);
                    }
                }
            } else {
                assert(parse_subs_from(rest, i) =~= Seq::<SubsectionModel>::empty());
            }
        } else {
            lemma_parse_subs_good(rest, i + 1, good);
            assert(parse_subs_from(rest, i) == parse_subs_from(rest, i + 1));
        }
    } else {
        assert(parse_subs_from(rest, i) =~= Seq::<SubsectionModel>::empty());
    }
}

/// Merging the entries of good sections keeps the subsections' lines good.
proof fn lemma_insert_all_sections_good(
    subs: Seq<SubsectionModel>,
    secs: Seq<(Seq<char>, Seq<EntryModel>)>,
    good: spec_fn(Seq<char>) -> bool,
)
    requires
        forall|k: int| 0 <= k < subs.len() ==> all_good(render(#[trigger] subs[k]), good),
        adds_good(secs, seq![], good),
    ensures
        forall|k: int|
            0 <= k < insert_all_sections(subs, secs).len() ==> all_good(
                render(#[trigger] insert_all_sections(subs, secs)[k]),
                good,
            ),
    decreases secs.len(),
{
    if secs.len() > 0 {
        let name = secs[0].0;
        let sorted = sort_entries(secs[0].1);
        assert(good("### "@ + secs[0].0) && entries_good(secs[0].1, good));
        lemma_sort_entries_good(secs[0].1, good);
        let next = insert_section(subs, name, secs[0].1);
        match find_sub(subs, name, 0) {
            Some(k) => {
                lemma_find_sub(subs, name, 0);
                let old_sub = subs[k];
                assert forall|m: int| 0 <= m < texts(old_sub.body).len() implies good(
                    #[trigger] texts(old_sub.body)[m],
                ) by {
                    assert(texts(old_sub.body)[m] == render(old_sub)[m + 1]);
                }
                lemma_insert_entries_good(old_sub.body, sorted, good);
                let ns = next[k];
                assert forall|m: int| 0 <= m < render(ns).len() implies good(#[trigger] render(ns)[m]) by {
                    if m == 0 {
                        assert(render(ns)[0] == render(old_sub)[0]);
                    } else {
                        assert(render(ns)[m] == texts(ns.body)[m - 1]);
                    }
                }
                assert forall|j: int| 0 <= j < next.len() implies all_good(render(#[trigger] next[j]), good) by {
                    if j != k {
                        assert(next[j] == subs[j]);
                    }
                }
            },
            None => {
                let pos = first_higher_rank(subs, canonical_rank(name), 0);
                lemma_first_higher_rank(subs, canonical_rank(name), 0);
                let ns = new_sub(name, sorted);
                assert forall|m: int| 0 <= m < render(ns).len() implies good(#[trigger] render(ns)[m]) by {
                    if m >= 2 {
                        assert(render(ns)[m] == entry_line(sorted[m - 2].1));
                    }
                }
                assert forall|j: int| 0 <= j < next.len() implies all_good(render(#[trigger] next[j]), good) by {
                    if j < pos {
                        assert(next[j] == subs[j]);
                    } else if j > pos {
                        assert(next[j] == subs[j - 1]);
                    }
                }
            },
        }
        assert forall|s: int| 0 <= s < secs.drop_first().len() implies good(
            "### "@ + (#[trigger] secs.drop_first()[s]).0,
        ) && entries_good(secs.drop_first()[s].1, good) by {
            assert(secs.drop_first()[s] == secs[s + 1]);
        }
        lemma_insert_all_sections_good(next, secs.drop_first(), good);
        assert(insert_all_sections(subs, secs) == insert_all_sections(next, secs.drop_first()));
    }
}

/// The blocks of subsections with good lines have good lines, given a good empty line.
proof fn lemma_blocks_good(subs: Seq<SubsectionModel>, good: spec_fn(Seq<char>) -> bool)
    requires
        forall|k: int| 0 <= k < subs.len() ==> all_good(render(#[trigger] subs[k]), good),
        good(seq![]),
    ensures
        all_good(blocks(subs), good),
    decreases subs.len(),
{
    if subs.len() > 0 {
        let d = subs.drop_last();
        let x = subs.last();
        assert forall|k: int| 0 <= k < d.len() implies all_good(render(#[trigger] d[k]), good) by {
            assert(d[k] == subs[k]);
        }
        lemma_blocks_good(d, good);
        assert(all_good(render(subs[subs.len() - 1]), good));
        assert forall|k: int| 0 <= k < gap(render(x)).len() implies good(#[trigger] gap(render(x))[k]) by {
            assert(gap(render(x))[k] =~= Seq::<char>::empty());
        }
        lemma_all_good_concat(render(x), gap(render(x)), good);
        lemma_all_good_concat(blocks(d), block(x), good);
    } else {
        assert(blocks(subs) =~= Seq::<Seq<char>>::empty());
    }
}

/// Merging good entries and sections into a section body of good lines gives good lines.
#[verifier::spinoff_prover]
proof fn lemma_merged_body_good(
    body: Seq<Seq<char>>,
    secs: Seq<(Seq<char>, Seq<EntryModel>)>,
    ph: Seq<EntryModel>,
    good: spec_fn(Seq<char>) -> bool,
)
    requires
        all_good(body, good),
        adds_good(secs, ph, good),
    ensures
        ({
            let h = next_h3(body, 0);
            all_good(
                assemble_body(
                    splice(body.take(h), ph),
                    insert_all_sections(parse_subs_from(body.skip(h), 0), secs),
                ),
                good,
            )
        }),
{
    let h = next_h3(body, 0);
    lemma_next_h3(body, 0);
    let prelude = body.take(h);
    let rest = body.skip(h);
    assert(all_good(prelude, good)) by {
        assert forall|k: int| 0 <= k < prelude.len() implies good(#[trigger] prelude[k]) by {
            assert(prelude[k] == body[k]);
        }
    }
    assert(all_good(rest, good)) by {
        assert forall|k: int| 0 <= k < rest.len() implies good(#[trigger] rest[k]) by {
            assert(rest[k] == body[h + k]);
        }
    }
    lemma_texts_classify_all(prelude);
    lemma_sort_entries_good(ph, good);
    lemma_insert_entries_good(classify_all(prelude), sort_entries(ph), good);
    let np = splice(prelude, ph);
    let parsed = parse_subs_from(rest, 0);
    lemma_parse_subs_good(rest, 0, good);
    assert(adds_good(secs, seq![], good)) by {
        assert(entries_good(Seq::<EntryModel>::empty(), good));
    }
    lemma_insert_all_sections_good(parsed, secs, good);
    let subs = insert_all_sections(parsed, secs);
    let sep = seq![Seq::<char>::empty()];
    assert(all_good(sep, good));
    lemma_all_good_concat(np, sep, good);
    assert(np + sep =~= np.push(seq![]));
    let np2 = if np.len() > 0 && !ends_blank(np) {
        np.push(seq![])
    } else {
        np
    };
    let nb = if subs.len() > 0 {
        np2 + render_all(subs)
    } else {
        np
    };
    if subs.len() > 0 {
        let d = subs.drop_last();
        assert forall|k: int| 0 <= k < d.len() implies all_good(render(#[trigger] d[k]), good) by {
            assert(d[k] == subs[k]);
        }
        lemma_blocks_good(d, good);
        assert(all_good(render(subs[subs.len() - 1]), good));
        lemma_all_good_concat(blocks(d), render(subs.last()), good);
        lemma_all_good_concat(np2, render_all(subs), good);
    }
    lemma_all_good_concat(nb, sep, good);
    assert(nb + sep =~= nb.push(seq![]));
}

/// Merging good entries and sections into good lines gives good lines.
pub proof fn lemma_merge_lines_good(
    ls: Seq<Seq<char>>,
    secs: Seq<(Seq<char>, Seq<EntryModel>)>,
    ph: Seq<EntryModel>,
    good: spec_fn(Seq<char>) -> bool,
)
    requires
        all_good(ls, good),
        adds_good(secs, ph, good),
    ensures
        merge_lines(ls, secs, ph) matches Some(out) ==> all_good(out, good),
{
    if let Some(out) = merge_lines(ls, secs, ph) {
        let u = find_unreleased(ls, 0)->0;
        let b = next_boundary(ls, u + 1);
        let body = ls.subrange(u + 1, b);
        let h = next_h3(body, 0);
        assert(all_good(body, good)) by {
            assert forall|k: int| 0 <= k < body.len() implies good(#[trigger] body[k]) by {
                assert(body[k] == ls[u + 1 + k]);
            }
        }
        lemma_merged_body_good(body, secs, ph, good);
        let ab = assemble_body(
            splice(body.take(h), ph),
            insert_all_sections(parse_subs_from(body.skip(h), 0), secs),
        );
        let head = ls.take(u + 1);
        let tail = ls.skip(b);
        assert(all_good(head, good)) by {
            assert forall|k: int| 0 <= k < head.len() implies good(#[trigger] head[k]) by {
                assert(head[k] == ls[k]);
            }
        }
        assert(all_good(tail, good)) by {
            assert forall|k: int| 0 <= k < tail.len() implies good(#[trigger] tail[k]) by {
                assert(tail[k] == ls[b + k]);
            }
        }
        lemma_all_good_concat(head, ab, good);
        lemma_all_good_concat(head + ab, tail, good);
        assert(out == head + ab + tail);
    }
}

/// The number of a numbered bullet.
pub open spec fn bullet_number(b: BulletModel) -> Option<u64> {
    match b {
        BulletModel::Bullet { pr: Some(n), .. } => Some(n),
        _ => None,
    }
}

/// Removing a final `'\r'` does not change the number a bullet's text names.
proof fn lemma_bullet_pr_strip_cr(u: Seq<char>)
    ensures
        bullet_pr(text::strip_cr(u)) == bullet_pr(u),
{
    reveal_strlit("([#");
    reveal_strlit("]");
    let v = text::strip_cr(u);
    text::lemma_find_strip_cr(u, "([#"@);
    match text::find(u, "([#"@) {
        None => {},
        Some(idx) => {
            text::lemma_find_from(v, "([#"@, 0);
            text::lemma_skip_strip_cr(u, idx + 3);
            let rest = u.skip(idx + 3);
            let rest2 = v.skip(idx + 3);
            text::lemma_find_strip_cr(rest, "]"@);
            match text::find(rest, "]"@) {
                None => {},
                Some(end) => {
                    text::lemma_find_from(rest2, "]"@, 0);
                    assert(rest2.take(end) =~= rest.take(end)) by {
                        assert forall|m: int| 0 <= m < end implies rest2[m] == rest[m] by {
                            if u.len() > 0 && u.last() == '\r' {
                                assert(rest2[m] == u[idx + 3 + m]);
                            }
                        }
                    }
                },
            }
        },
    }
}

/// Removing a final `'\r'` from a line does not change how the merge reads it: as the
/// `## [Unreleased]` heading, as the end of that section, as a `### ` heading, or as a bullet
/// and its number.
proof fn lemma_strip_cr_line_kinds(l: Seq<char>)
    ensures
        is_unreleased_heading(text::strip_cr(l)) == is_unreleased_heading(l),
        is_boundary(text::strip_cr(l)) == is_boundary(l),
        is_h3(text::strip_cr(l)) == is_h3(l),
        bullet_number(classify(text::strip_cr(l))) == bullet_number(classify(l)),
{
    reveal_strlit("## ");
    reveal_strlit("### ");
    reveal_strlit("- ");
    reveal_strlit("[");
    reveal_strlit("]");
    reveal_strlit(":");
    let v = text::strip_cr(l);
    text::lemma_trim_strip_cr(l);
    text::lemma_trim_start_strip_cr(l);
    let t = text::trim_start(l);
    let tv = text::trim_start(v);
    assert(tv == text::strip_cr(t));
    text::lemma_starts_with_strip_cr(l, "## "@);
    text::lemma_starts_with_strip_cr(t, "### "@);
    text::lemma_starts_with_strip_cr(t, "- "@);
    text::lemma_starts_with_strip_cr(t, "["@);
    // Reference definitions.
    if text::starts_with(t, "["@) {
        assert(t.take(1)[0] == t[0]);
        text::lemma_skip_strip_cr(t, 1);
        let u = t.skip(1);
        assert(tv.skip(1) == text::strip_cr(u));
        text::lemma_find_strip_cr(u, "]"@);
        match text::find(u, "]"@) {
            None => {},
            Some(idx) => {
                text::lemma_find_from(text::strip_cr(u), "]"@, 0);
                text::lemma_skip_strip_cr(u, idx + 1);
                text::lemma_starts_with_strip_cr(u.skip(idx + 1), ":"@);
            },
        }
    }
    // Bullets.
    if text::starts_with(t, "- "@) {
        text::lemma_skip_strip_cr(t, 2);
        lemma_bullet_pr_strip_cr(t.skip(2));
    }
}

/// Lines that are, one for one, the given lines or those lines without a final `'\r'` have
/// the same `## [Unreleased]` heading.
proof fn lemma_find_unreleased_cr(o: Seq<Seq<char>>, l: Seq<Seq<char>>, i: int)
    requires
        o.len() == l.len(),
        forall|k: int| 0 <= k < o.len() ==> #[trigger] l[k] == o[k] || l[k] == text::strip_cr(o[k]),
        0 <= i,
    ensures
        find_unreleased(l, i) == find_unreleased(o, i),
    decreases o.len() - i,
{
    if i < o.len() {
        lemma_strip_cr_line_kinds(o[i]);
        assert(l[i] == o[i] || l[i] == text::strip_cr(o[i]));
        lemma_find_unreleased_cr(o, l, i + 1);
    }
}

/// Such lines also end the `## [Unreleased]` section at the same line.
proof fn lemma_next_boundary_cr(o: Seq<Seq<char>>, l: Seq<Seq<char>>, j: int)
    requires
        o.len() == l.len(),
        forall|k: int| 0 <= k < o.len() ==> #[trigger] l[k] == o[k] || l[k] == text::strip_cr(o[k]),
        0 <= j,
    ensures
        next_boundary(l, j) == next_boundary(o, j),
    decreases o.len() - j,
{
    if j < o.len() {
        lemma_strip_cr_line_kinds(o[j]);
        assert(l[j] == o[j] || l[j] == text::strip_cr(o[j]));
        lemma_next_boundary_cr(o, l, j + 1);
    }
}

/// Such lines read back an ascending `## [Unreleased]` body when the given ones do.
proof fn lemma_unreleased_body_cr(o: Seq<Seq<char>>, l: Seq<Seq<char>>)
    requires
        o.len() == l.len(),
        forall|k: int| 0 <= k < o.len() ==> #[trigger] l[k] == o[k] || l[k] == text::strip_cr(o[k]),
        unreleased_body(o) matches Some(nb) && body_ascending(nb),
    ensures
        unreleased_body(l) matches Some(nb) && body_ascending(nb),
{
    reveal(body_ascending);
    lemma_find_unreleased_cr(o, l, 0);
    let u = find_unreleased(o, 0)->0;
    lemma_find_unreleased(o, 0);
    lemma_next_boundary_cr(o, l, u + 1);
    let e = next_boundary(o, u + 1);
    lemma_next_boundary(o, u + 1);
    let ob = o.subrange(u + 1, e);
    let lb = l.subrange(u + 1, e);
    assert forall|k: int| 0 <= k < lb.len() implies is_h3(#[trigger] lb[k]) == is_h3(ob[k])
        && bullet_number(classify(lb[k])) == bullet_number(classify(ob[k])) by {
        lemma_strip_cr_line_kinds(ob[k]);
        assert(lb[k] == l[u + 1 + k] && ob[k] == o[u + 1 + k]);
        assert(l[u + 1 + k] == o[u + 1 + k] || l[u + 1 + k] == text::strip_cr(o[u + 1 + k]));
    }
    assert forall|i: int, j: int|
        0 <= i < j < lb.len() && (forall|k: int| i < k <= j ==> !is_h3(#[trigger] lb[k])) implies match (
            classify(#[trigger] lb[i]),
            classify(#[trigger] lb[j]),
        ) {
            (BulletModel::Bullet { pr: Some(a), .. }, BulletModel::Bullet { pr: Some(b), .. }) => a
                <= b,
            _ => true,
        } by {
        assert forall|k: int| i < k <= j implies !is_h3(#[trigger] ob[k]) by {
            assert(is_h3(lb[k]) == is_h3(ob[k]));
        }
        assert(bullet_number(classify(lb[i])) == bullet_number(classify(ob[i])));
        assert(bullet_number(classify(lb[j])) == bullet_number(classify(ob[j])));
        assert(match (classify(ob[i]), classify(ob[j])) {
            (BulletModel::Bullet { pr: Some(a), .. }, BulletModel::Bullet { pr: Some(b), .. }) => a
                <= b,
            _ => true,
        });
    }
}

/// Whether a line holds no line break.
pub open spec fn unbroken() -> spec_fn(Seq<char>) -> bool {
    |l: Seq<char>| !text::has_char(l, '\n')
}

/// Whether no entry text holds a line break.
pub open spec fn entries_unbroken(es: Seq<EntryModel>) -> bool {
    forall|i: int| 0 <= i < es.len() ==> !text::has_char((#[trigger] es[i]).1, '\n')
}

/// Whether no section name or entry text holds a line break.
pub open spec fn sections_unbroken(secs: Seq<(Seq<char>, Seq<EntryModel>)>) -> bool {
    forall|s: int|
        0 <= s < secs.len() ==> !text::has_char((#[trigger] secs[s]).0, '\n') && entries_unbroken(secs[s].1)
}

/// A text put after a short prefix without line breaks holds one only where the text does.
proof fn lemma_prefixed_unbroken(t: Seq<char>)
    ensures
        !text::has_char(t, '\n') ==> !text::has_char(entry_line(t), '\n') && !text::has_char(
            "### "@ + t,
            '\n',
        ),
{
    reveal_strlit("- ");
    reveal_strlit("### ");
    if !text::has_char(t, '\n') {
        let e = entry_line(t);
        assert forall|k: int| 0 <= k < e.len() implies e[k] != '\n' by {
            if k >= 2 {
                assert(e[k] == t[k - 2]);
            }
        }
        let g = "### "@ + t;
        assert forall|k: int| 0 <= k < g.len() implies g[k] != '\n' by {
            if k >= 4 {
                assert(g[k] == t[k - 4]);
            }
        }
    }
}

/// Merging entries whose bullets read back with their numbers into any changelog text keeps
/// the numbered bullets of its `## [Unreleased]` section in ascending order before the first
/// `### ` heading and within each `### ` subsection, as the merged text reads back (for entries
/// and section names without line breaks).
pub proof fn lemma_merge_keeps_text_order(
    content: Seq<char>,
    secs: Seq<(Seq<char>, Seq<EntryModel>)>,
    ph: Seq<EntryModel>,
)
    requires
        unreleased_body(text::lines(content)) matches Some(body) ==> body_ascending(body),
        entries_read_back(ph),
        sections_read_back(secs),
        entries_unbroken(ph),
        sections_unbroken(secs),
    ensures
        (secs.len() > 0 || ph.len() > 0) && merge(content, secs, ph) is Some ==> (unreleased_body(
            text::lines(merge(content, secs, ph)->0),
        ) matches Some(nb) && body_ascending(nb)),
{
    let ls = text::lines(content);
    lemma_merge_keeps_order(ls, secs, ph);
    if (secs.len() > 0 || ph.len() > 0) && merge(content, secs, ph) is Some {
        let out = merge_lines(ls, secs, ph)->0;
        let good = unbroken();
        // No merged line holds a line break.
        text::lemma_lines_no_newlines(content);
        assert(all_good(ls, good));
        assert(!text::has_char(Seq::<char>::empty(), '\n'));
        assert forall|i: int| 0 <= i < ph.len() implies good(entry_line((#[trigger] ph[i]).1)) by {
            lemma_prefixed_unbroken(ph[i].1);
        }
        assert forall|s: int| 0 <= s < secs.len() implies good("### "@ + (#[trigger] secs[s]).0)
            && entries_good(secs[s].1, good) by {
            lemma_prefixed_unbroken(secs[s].0);
            assert(entries_unbroken(secs[s].1));
            assert forall|i: int| 0 <= i < secs[s].1.len() implies good(
                entry_line((#[trigger] secs[s].1[i]).1),
            ) by {
                lemma_prefixed_unbroken(secs[s].1[i].1);
            }
        }
        lemma_merge_lines_good(ls, secs, ph, good);
        assert(text::no_newlines(out)) by {
            assert forall|k: int| 0 <= k < out.len() implies !text::has_char(#[trigger] out[k], '\n') by {
                assert(good(out[k]));
            }
        }
        let r = merge(content, secs, ph)->0;
        let front = out.drop_last();
        let last = out.last();
        assert(out =~= front.push(last));
        text::lemma_join_push(front, last);
        if text::ends_with(content, "\n"@) {
            assert(r == text::join_lines(out) + seq!['\n']);
            text::lemma_lines_join_terminated(out);
            let l = text::lines(r);
            assert forall|k: int| 0 <= k < out.len() implies #[trigger] l[k] == out[k] || l[k]
                == text::strip_cr(out[k]) by {}
            lemma_unreleased_body_cr(out, l);
        } else {
            assert(r == text::join_lines(out));
            if last.len() > 0 {
                text::lemma_lines_join_unterminated(out);
                let l = text::lines(r);
                assert forall|k: int| 0 <= k < out.len() implies #[trigger] l[k] == out[k] || l[k]
                    == text::strip_cr(out[k]) by {
                    if k < out.len() - 1 {
                        assert(l[k] == text::strip_cr(front[k]));
                        assert(front[k] == out[k]);
                    }
                }
                lemma_unreleased_body_cr(out, l);
            } else {
                lemma_unreleased_body_drop_blank(out);
                let u = find_unreleased(front, 0)->0;
                lemma_find_unreleased(front, 0);
                assert(front.len() > 0);
                assert(r =~= text::join_lines(front) + seq!['\n']);
                assert(text::no_newlines(front)) by {
                    assert forall|k: int| 0 <= k < front.len() implies !text::has_char(#[trigger] front[k], '\n') by {
                        assert(front[k] == out[k]);
                    }
                }
                text::lemma_lines_join_terminated(front);
                let l = text::lines(r);
                assert forall|k: int| 0 <= k < front.len() implies #[trigger] l[k] == front[k] || l[k]
                    == text::strip_cr(front[k]) by {}
                lemma_unreleased_body_cr(front, l);
            }
        }
    }
}

/// The subsections parsed from lines whose bullets are in order within each subsection have
/// their bullets in order.
proof fn lemma_parse_subs_ascending(rest: Seq<Seq<char>>, i: int)
    requires
        0 <= i,
        body_ascending(rest),
    ensures
        subs_ascending(parse_subs_from(rest, i)),
    decreases rest.len() - i,
{
    if i < rest.len() {
        if is_h3(rest[i]) {
            let j = next_h3(rest, i + 1);
            if i < j <= rest.len() {
                lemma_next_h3(rest, i + 1);
                lemma_parse_subs_ascending(rest, j);
                let sub = make_sub(rest, i, j);
                let p = parse_subs_from(rest, i);
                let t = parse_subs_from(rest, j);
                assert(p == seq![sub] + t);
                lemma_body_ascending_range(rest, i + 1, j);
                assert forall|k: int| 0 <= k < p.len() implies bullets_ascending(#[trigger] p[k].body) by {
                    if k > 0 {
                        assert(p[k] == t[k - 1]);
                    }
                }
            } else {
                assert(parse_subs_from(rest, i) =~= Seq::<SubsectionModel>::empty());
            }
        } else {
            lemma_parse_subs_ascending(rest, i + 1);
            assert(parse_subs_from(rest, i) == parse_subs_from(rest, i + 1));
        }
    } else {
        assert(parse_subs_from(rest, i) =~= Seq::<SubsectionModel>::empty());
    }
}

// ---------------------------------------------------------------------------------------------
// Implementation: bullets.
// ---------------------------------------------------------------------------------------------

/// A copy of a character slice.
pub fn copy_chars(v: &[char]) -> (r: Vec<char>)
    ensures
        r@ == v@,
{
    let r = subslice(v, 0, v.len());
    assert(v@.subrange(0, v.len() as int) =~= v@);
    r
}

/// The pull-request number of a bullet's `([#N]` reference.
pub fn parse_bullet_pr(bullet_text: &[char]) -> (r: Option<u64>)
    ensures
        r == bullet_pr(bullet_text@),
{
    let open = chars_of("([#");
    let close = chars_of("]");
    proof {
        reveal_strlit("([#");
    }
    let idx = match find_chars(bullet_text, &open) {
        Some(i) => i,
        None => {
            return None;
        },
    };
    proof {
        text::lemma_find_from(bullet_text@, open@, 0);
        assert(open@.len() == 3);
        assert(text::matches_at(bullet_text@, open@, idx as int));
        assert(idx + 3 <= bullet_text@.len());
    }
    assert(idx + 3 <= bullet_text.len());
    let rest = subslice(bullet_text, idx + 3, bullet_text.len());
    assert(rest@ =~= bullet_text@.skip(idx + 3));
    let end = match find_chars(&rest, &close) {
        Some(e) => e,
        None => {
            return None;
        },
    };
    proof {
        text::lemma_find_from(rest@, close@, 0);
    }
    let digits = subslice(&rest, 0, end);
    assert(digits@ =~= rest@.take(end as int));
    numbers::parse_u64_chars(&digits)
}

/// Classifies a body line.
pub fn classify_line(line: &[char]) -> (r: BulletLine)
    ensures
        r@ == classify(line@),
{
    let trimmed = trim_start_chars(line);
    let dash = chars_of("- ");
    proof {
        reveal_strlit("- ");
    }
    if has_prefix(&trimmed, &dash) {
        let stripped = subslice(&trimmed, 2, trimmed.len());
        assert(stripped@ =~= trimmed@.skip(2));
        BulletLine::Bullet { pr: parse_bullet_pr(&stripped), text: copy_chars(line) }
    } else {
        BulletLine::Prose(copy_chars(line))
    }
}

/// Classifies every line.
pub fn classify_lines(ls: &[Vec<char>]) -> (r: Vec<BulletLine>)
    ensures
        bullet_views(r@) == classify_all(text::views(ls@)),
{
    let mut r: Vec<BulletLine> = Vec::new();
    let mut i: usize = 0;
    while i < ls.len()
        invariant
            i <= ls.len(),
            r@.len() == i,
            forall|k: int| 0 <= k < i ==> (#[trigger] r@[k])@ == classify(ls@[k]@),
        decreases ls.len() - i,
    {
        r.push(classify_line(&ls[i]));
        i += 1;
    }
    assert(bullet_views(r@) =~= classify_all(text::views(ls@)));
    r
}

/// The text of a body line.
pub fn bullet_line_text(line: &BulletLine) -> (r: Vec<char>)
    ensures
        r@ == line_text(line@),
{
    match line {
        BulletLine::Prose(s) => copy_chars(s),
        BulletLine::Bullet { text, .. } => copy_chars(text),
    }
}

/// The texts of body lines.
pub fn bullet_texts(items: &[BulletLine]) -> (r: Vec<Vec<char>>)
    ensures
        text::views(r@) == texts(bullet_views(items@)),
{
    let mut r: Vec<Vec<char>> = Vec::new();
    let mut i: usize = 0;
    while i < items.len()
        invariant
            i <= items.len(),
            r@.len() == i,
            forall|k: int| 0 <= k < i ==> (#[trigger] r@[k])@ == line_text(items@[k]@),
        decreases items.len() - i,
    {
        r.push(bullet_line_text(&items[i]));
        i += 1;
    }
    assert(text::views(r@) =~= texts(bullet_views(items@)));
    r
}

/// The first bullet whose number exceeds `pr`.
fn first_greater_bullet(items: &Vec<BulletLine>, pr: u64) -> (r: Option<usize>)
    ensures
        match r {
            Some(i) => first_greater_from(bullet_views(items@), pr, 0) == Some(i as int) && i
                < items.len(),
            None => first_greater_from(bullet_views(items@), pr, 0) is None,
        },
{
    let ghost iv = bullet_views(items@);
    let mut idx: usize = 0;
    while idx < items.len()
        invariant
            idx <= items.len(),
            iv == bullet_views(items@),
            first_greater_from(iv, pr, 0) == first_greater_from(iv, pr, idx as int),
        decreases items.len() - idx,
    {
        assert(iv[idx as int] == items@[idx as int]@);
        match &items[idx] {
            BulletLine::Bullet { pr: Some(ep), .. } => {
                if *ep > pr {
                    return Some(idx);
                }
            },
            _ => {},
        }
        idx += 1;
    }
    None
}

/// The last bullet.
fn last_bullet(items: &Vec<BulletLine>) -> (r: Option<usize>)
    ensures
        match r {
            Some(i) => last_bullet_below(bullet_views(items@), items.len() as int) == Some(
                i as int,
            ) && i < items.len(),
            None => last_bullet_below(bullet_views(items@), items.len() as int) is None,
        },
{
    let ghost iv = bullet_views(items@);
    let mut k: usize = items.len();
    while k > 0
        invariant
            k <= items.len(),
            iv == bullet_views(items@),
            last_bullet_below(iv, items.len() as int) == last_bullet_below(iv, k as int),
        decreases k,
    {
        assert(iv[k - 1] == items@[k - 1]@);
        match &items[k - 1] {
            BulletLine::Bullet { .. } => {
                return Some(k - 1);
            },
            _ => {},
        }
        k -= 1;
    }
    None
}

/// Inserts a new bullet line, keeping ascending pull-request order among the existing bullets.
/// A bullet with no larger existing bullet lands right after the last existing bullet (or at
/// the very end, if there are none).
pub fn insert_bullet_line(items: &mut Vec<BulletLine>, pr: u64, line: Vec<char>)
    ensures
        bullet_views(final(items)@) == insert_bullet(bullet_views(old(items)@), pr, line@),
{
    let ghost iv = bullet_views(items@);
    let at = match first_greater_bullet(items, pr) {
        Some(i) => i,
        None => match last_bullet(items) {
            Some(l) => l + 1,
            None => items.len(),
        },
    };
    assert(at as int == bullet_insert_pos(iv, pr));
    items.insert(at, BulletLine::Bullet { pr: Some(pr), text: line });
    assert(bullet_views(items@) =~= insert_bullet(iv, pr, line@));
}

/// Inserts a `- ` bullet for each entry, in order.
pub fn insert_entry_lines(items: &mut Vec<BulletLine>, es: &[(u64, Vec<char>)])
    ensures
        bullet_views(final(items)@) == insert_entries(bullet_views(old(items)@), entry_views(es@)),
{
    let ghost ev = entry_views(es@);
    let dash = chars_of("- ");
    let mut i: usize = 0;
    assert(ev.skip(0) =~= ev);
    while i < es.len()
        invariant
            i <= es.len(),
            ev == entry_views(es@),
            dash@ == "- "@,
            insert_entries(bullet_views(items@), ev.skip(i as int)) == insert_entries(
                bullet_views(old(items)@),
                ev,
            ),
        decreases es.len() - i,
    {
        let mut line = copy_chars(&dash);
        append_chars(&mut line, &es[i].1);
        assert(ev.skip(i as int)[0] == ev[i as int]);
        assert(ev.skip(i as int).drop_first() =~= ev.skip(i + 1));
        insert_bullet_line(items, es[i].0, line);
        i += 1;
    }
    assert(ev.skip(i as int) =~= Seq::<EntryModel>::empty());
}

/// [`upper_pos`] stays within bounds.
pub proof fn lemma_upper_pos(s: Seq<EntryModel>, k: u64, i: int)
    requires
        0 <= i <= s.len(),
    ensures
        i <= upper_pos(s, k, i) <= s.len(),
    decreases s.len() - i,
{
    if i < s.len() && s[i].0 <= k {
        lemma_upper_pos(s, k, i + 1);
    }
}

/// The first position whose entry number exceeds `k`.
fn upper_position(s: &Vec<(u64, Vec<char>)>, k: u64) -> (r: usize)
    ensures
        r as int == upper_pos(entry_views(s@), k, 0),
{
    let ghost sv = entry_views(s@);
    let mut i: usize = 0;
    while i < s.len()
        invariant
            i <= s.len(),
            sv == entry_views(s@),
            upper_pos(sv, k, 0) == upper_pos(sv, k, i as int),
        decreases s.len() - i,
    {
        assert(sv[i as int].0 == s@[i as int].0);
        if s[i].0 > k {
            return i;
        }
        i += 1;
    }
    i
}

/// The entries stably sorted by pull-request number.
pub fn sort_entry_list(es: &[(u64, Vec<char>)]) -> (r: Vec<(u64, Vec<char>)>)
    ensures
        entry_views(r@) == sort_entries(entry_views(es@)),
{
    let ghost ev = entry_views(es@);
    let mut r: Vec<(u64, Vec<char>)> = Vec::new();
    let mut i: usize = 0;
    assert(ev.take(0) =~= Seq::<EntryModel>::empty());
    while i < es.len()
        invariant
            i <= es.len(),
            ev == entry_views(es@),
            entry_views(r@) == sort_entries(ev.take(i as int)),
        decreases es.len() - i,
    {
        let ghost before = entry_views(r@);
        let pos = upper_position(&r, es[i].0);
        proof {
            lemma_upper_pos(before, es@[i as int].0, 0);
        }
        let item = (es[i].0, copy_chars(&es[i].1));
        assert(ev[i as int] == (item.0, item.1@));
        r.insert(pos, item);
        proof {
            assert(ev.take(i + 1).drop_last() =~= ev.take(i as int));
            assert(ev.take(i + 1).last() == ev[i as int]);
            assert(entry_views(r@) =~= before.insert(pos as int, (item.0, item.1@)));
        }
        i += 1;
    }
    assert(ev.take(es.len() as int) =~= ev);
    r
}

/// Converts string entries to character entries.
pub fn entries_of_strings(v: &Vec<(u64, String)>) -> (r: Vec<(u64, Vec<char>)>)
    ensures
        entry_views(r@) == string_entry_views(v@),
{
    let mut r: Vec<(u64, Vec<char>)> = Vec::new();
    let mut i: usize = 0;
    while i < v.len()
        invariant
            i <= v.len(),
            r@.len() == i,
            forall|k: int|
                0 <= k < i ==> (#[trigger] r@[k]).0 == v@[k].0 && r@[k].1@ == v@[k].1@,
        decreases v.len() - i,
    {
        r.push((v[i].0, chars_of(v[i].1.as_str())));
        i += 1;
    }
    assert(entry_views(r@) =~= string_entry_views(v@));
    r
}

// ---------------------------------------------------------------------------------------------
// Implementation: subsections.
// ---------------------------------------------------------------------------------------------

/// Lines `lo..hi` of a list of lines.
pub fn lines_range(ls: &[Vec<char>], lo: usize, hi: usize) -> (r: Vec<Vec<char>>)
    requires
        lo <= hi <= ls.len(),
    ensures
        text::views(r@) == text::views(ls@).subrange(lo as int, hi as int),
{
    let mut r: Vec<Vec<char>> = Vec::new();
    let mut i = lo;
    while i < hi
        invariant
            lo <= i <= hi,
            hi <= ls.len(),
            r@.len() == i - lo,
            forall|k: int| 0 <= k < i - lo ==> (#[trigger] r@[k])@ == ls@[lo + k]@,
        decreases hi - i,
    {
        r.push(copy_chars(&ls[i]));
        i += 1;
    }
    assert(text::views(r@) =~= text::views(ls@).subrange(lo as int, hi as int));
    r
}

/// Appends copies of `extra` to `ls`.
pub fn append_lines(ls: &mut Vec<Vec<char>>, extra: &[Vec<char>])
    ensures
        text::views(final(ls)@) == text::views(old(ls)@) + text::views(extra@),
{
    let mut i: usize = 0;
    while i < extra.len()
        invariant
            i <= extra.len(),
            text::views(ls@) == text::views(old(ls)@) + text::views(extra@).take(i as int),
        decreases extra.len() - i,
    {
        let ghost before = text::views(ls@);
        ls.push(copy_chars(&extra[i]));
        assert(text::views(ls@) =~= before.push(extra@[i as int]@));
        assert(text::views(extra@).take(i + 1) =~= text::views(extra@).take(i as int).push(
            extra@[i as int]@,
        ));
        i += 1;
    }
    assert(text::views(extra@).take(extra.len() as int) =~= text::views(extra@));
}

/// Whether a line is a `### ` heading.
pub fn is_h3_line(line: &[char]) -> (r: bool)
    ensures
        r == is_h3(line@),
{
    let h = chars_of("### ");
    has_prefix(&trim_start_chars(line), &h)
}

/// [`next_h3`] stays within bounds.
pub proof fn lemma_next_h3(ls: Seq<Seq<char>>, j: int)
    requires
        0 <= j <= ls.len(),
    ensures
        j <= next_h3(ls, j) <= ls.len(),
        next_h3(ls, j) < ls.len() ==> is_h3(ls[next_h3(ls, j)]),
        forall|k: int| j <= k < next_h3(ls, j) ==> !is_h3(#[trigger] ls[k]),
    decreases ls.len() - j,
{
    if j < ls.len() && !is_h3(ls[j]) {
        lemma_next_h3(ls, j + 1);
    }
}

/// The first `### ` heading at or after `j`.
fn next_h3_index(ls: &[Vec<char>], j: usize) -> (r: usize)
    requires
        j <= ls.len(),
    ensures
        r as int == next_h3(text::views(ls@), j as int),
        j <= r <= ls.len(),
{
    let ghost lv = text::views(ls@);
    let mut k = j;
    while k < ls.len()
        invariant
            j <= k <= ls.len(),
            lv == text::views(ls@),
            next_h3(lv, j as int) == next_h3(lv, k as int),
        decreases ls.len() - k,
    {
        assert(lv[k as int] == ls@[k as int]@);
        if is_h3_line(&ls[k]) {
            return k;
        }
        k += 1;
    }
    k
}

/// `s` with every leading copy of `p` removed.
pub fn strip_all_prefix(s: &[char], p: &[char]) -> (r: Vec<char>)
    ensures
        r@ == strip_all(s@, p@),
{
    let mut i: usize = 0;
    assert(s@.skip(0) =~= s@);
    if p.len() == 0 {
        return copy_chars(s);
    }
    loop
        invariant
            i <= s.len(),
            p.len() > 0,
            strip_all(s@.skip(i as int), p@) == strip_all(s@, p@),
        decreases s.len() - i,
    {
        let rest = subslice(s, i, s.len());
        assert(rest@ =~= s@.skip(i as int));
        if has_prefix(&rest, p) {
            assert(s@.skip(i as int).skip(p.len() as int) =~= s@.skip(i + p.len()));
            i = i + p.len();
        } else {
            return rest;
        }
    }
}

/// The name of a `### ` heading.
pub fn heading_name_of(h: &[char]) -> (r: Vec<char>)
    ensures
        r@ == heading_name(h@),
{
    let prefix = chars_of("### ");
    trim_chars(&strip_all_prefix(&trim_start_chars(h), &prefix))
}

/// Classifies lines `lo..hi`.
fn classify_range(ls: &[Vec<char>], lo: usize, hi: usize) -> (r: Vec<BulletLine>)
    requires
        lo <= hi <= ls.len(),
    ensures
        bullet_views(r@) == classify_all(text::views(ls@).subrange(lo as int, hi as int)),
{
    let part = lines_range(ls, lo, hi);
    classify_lines(&part)
}

/// Splits lines into `### ` subsections (lines before the first heading are ignored).
pub fn parse_subsections(rest: &[Vec<char>]) -> (r: Vec<Subsection>)
    ensures
        sub_views(r@) == parse_subs_from(text::views(rest@), 0),
{
    let ghost rv = text::views(rest@);
    let mut out: Vec<Subsection> = Vec::new();
    let mut i: usize = 0;
    while i < rest.len()
        invariant
            i <= rest.len(),
            rv == text::views(rest@),
            sub_views(out@) + parse_subs_from(rv, i as int) == parse_subs_from(rv, 0),
        decreases rest.len() - i,
    {
        assert(rv[i as int] == rest@[i as int]@);
        if is_h3_line(&rest[i]) {
            let j = next_h3_index(rest, i + 1);
            let heading = copy_chars(&rest[i]);
            let name = heading_name_of(&heading);
            let body_lines = classify_range(rest, i + 1, j);
            let sub = Subsection { name, heading, body_lines };
            assert(sub@ == make_sub(rv, i as int, j as int));
            let ghost before = sub_views(out@);
            out.push(sub);
            assert(sub_views(out@) =~= before.push(make_sub(rv, i as int, j as int)));
            assert(parse_subs_from(rv, i as int) == seq![make_sub(rv, i as int, j as int)]
                + parse_subs_from(rv, j as int));
            assert(sub_views(out@) + parse_subs_from(rv, j as int) =~= before + parse_subs_from(
                rv,
                i as int,
            ));
            i = j;
        } else {
            i += 1;
        }
    }
    assert(sub_views(out@) + parse_subs_from(rv, i as int) =~= sub_views(out@));
    out
}

/// The lines of a subsection.
pub fn render_subsection(sub: &Subsection) -> (r: Vec<Vec<char>>)
    ensures
        text::views(r@) == render(sub@),
{
    let mut r: Vec<Vec<char>> = Vec::new();
    r.push(copy_chars(&sub.heading));
    let body = bullet_texts(&sub.body_lines);
    let ghost first = text::views(r@);
    append_lines(&mut r, &body);
    assert(first =~= seq![sub.heading@]);
    r
}

/// The lines of consecutive subsections, with a blank line between each two where the first
/// does not already end with one.
pub fn render_subsections(subs: &[Subsection]) -> (r: Vec<Vec<char>>)
    ensures
        text::views(r@) == render_all(sub_views(subs@)),
{
    let ghost sv = sub_views(subs@);
    let mut r: Vec<Vec<char>> = Vec::new();
    let mut i: usize = 0;
    assert(sv.take(0) =~= Seq::<SubsectionModel>::empty());
    while i < subs.len()
        invariant
            i <= subs.len(),
            sv == sub_views(subs@),
            text::views(r@) == render_all(sv.take(i as int)),
        decreases subs.len() - i,
    {
        let ghost before = text::views(r@);
        assert(sv.take(i + 1).drop_last() =~= sv.take(i as int));
        assert(sv.take(i + 1).last() == subs@[i as int]@);
        if i > 0 {
            let ghost prev = sv[i - 1];
            assert(sv.take(i as int).drop_last() =~= sv.take(i - 1));
            assert(sv.take(i as int).last() == prev);
            assert(before == blocks(sv.take(i - 1)) + render(prev));
            assert(before.last() == render(prev).last());
            assert(r@.last()@ == before.last());
            if r[r.len() - 1].len() != 0 {
                r.push(Vec::new());
                assert(text::views(r@) =~= before + gap(render(prev)));
            } else {
                assert(text::views(r@) =~= before + gap(render(prev)));
            }
            assert(text::views(r@) =~= blocks(sv.take(i as int)));
        } else {
            assert(text::views(r@) =~= blocks(sv.take(0)));
        }
        let ghost mid = text::views(r@);
        let lines = render_subsection(&subs[i]);
        append_lines(&mut r, &lines);
        assert(text::views(r@) =~= mid + render(subs@[i as int]@));
        i += 1;
    }
    assert(sv.take(subs.len() as int) =~= sv);
    r
}

/// The canonical rank of a subsection name; unknown names sort last.
pub fn canonical_rank_of(name: &[char]) -> (r: usize)
    ensures
        r == canonical_rank(name@),
{
    proof {
        reveal_strlit("Added");
        reveal_strlit("Changed");
        reveal_strlit("Deprecated");
        reveal_strlit("Removed");
        reveal_strlit("Fixed");
        reveal_strlit("Security");
        reveal_with_fuel(rank_from, 7);
        // The canonical names differ in their first letter.
        assert("Added"@[0] == 'A' && "Changed"@[0] == 'C' && "Deprecated"@[0] == 'D');
        assert("Removed"@[0] == 'R' && "Fixed"@[0] == 'F' && "Security"@[0] == 'S');
    }
    if chars_eq(name, &chars_of("Added")) {
        return 0;
    }
    if chars_eq(name, &chars_of("Changed")) {
        return 1;
    }
    if chars_eq(name, &chars_of("Deprecated")) {
        return 2;
    }
    if chars_eq(name, &chars_of("Removed")) {
        return 3;
    }
    if chars_eq(name, &chars_of("Fixed")) {
        return 4;
    }
    if chars_eq(name, &chars_of("Security")) {
        return 5;
    }
    usize::MAX
}

/// [`first_higher_rank`] stays within bounds.
pub proof fn lemma_first_higher_rank(subs: Seq<SubsectionModel>, rank: usize, k: int)
    requires
        0 <= k <= subs.len(),
    ensures
        k <= first_higher_rank(subs, rank, k) <= subs.len(),
    decreases subs.len() - k,
{
    if k < subs.len() && canonical_rank(subs[k].name) <= rank {
        lemma_first_higher_rank(subs, rank, k + 1);
    }
}

/// The rank of a name: its position among `Added`, `Changed`, `Deprecated`, `Removed`, `Fixed`,
/// `Security`, or `usize::MAX` for any other name.
pub proof fn lemma_canonical_rank_is_position(name: Seq<char>)
    ensures
        forall|k: int| 0 <= k < 6 ==> canonical_rank(#[trigger] canonical_sections()[k]) == k,
        !canonical_sections().contains(name) ==> canonical_rank(name) == usize::MAX,
{
    reveal_strlit("Added");
    reveal_strlit("Changed");
    reveal_strlit("Deprecated");
    reveal_strlit("Removed");
    reveal_strlit("Fixed");
    reveal_strlit("Security");
    reveal_with_fuel(rank_from, 7);
    let c = canonical_sections();
    assert(c[0][0] == 'A' && c[1][0] == 'C' && c[2][0] == 'D');
    assert(c[3][0] == 'R' && c[4][0] == 'F' && c[5][0] == 'S');
    if !c.contains(name) {
        assert forall|k: int| 0 <= k < 6 implies c[k] != name by {
            if c[k] == name {
                assert(c.contains(name));
            }
        }
    }
}

/// Where [`first_higher_rank`] stops: every subsection before is ranked at most `rank`, and the
/// one it stops at is ranked after it.
proof fn lemma_first_higher_rank_first(subs: Seq<SubsectionModel>, rank: usize, k: int)
    requires
        0 <= k <= subs.len(),
    ensures
        forall|j: int| k <= j < first_higher_rank(subs, rank, k) ==> canonical_rank(#[trigger] subs[j].name) <= rank,
        first_higher_rank(subs, rank, k) < subs.len() ==> canonical_rank(
            subs[first_higher_rank(subs, rank, k)].name,
        ) > rank,
    decreases subs.len() - k,
{
    if k < subs.len() && canonical_rank(subs[k].name) <= rank {
        lemma_first_higher_rank_first(subs, rank, k + 1);
    }
}

/// A new subsection for one of the keep-a-changelog names goes in keep-a-changelog order: no
/// subsection before it has a name that comes later in that order, and the one right after it
/// (if any) has a name that comes later or is none of them. Nothing else moves.
pub proof fn lemma_new_subsection_in_canonical_order(
    subs: Seq<SubsectionModel>,
    a: int,
    entries: Seq<EntryModel>,
)
    requires
        0 <= a < 6,
        find_sub(subs, canonical_sections()[a], 0) is None,
    ensures
        exists|pos: int|
            0 <= pos <= subs.len() && insert_section(subs, canonical_sections()[a], entries) == subs.insert(
                pos,
                new_sub(canonical_sections()[a], sort_entries(entries)),
            ) && (forall|j: int, b: int|
                0 <= j < pos && a < b < 6 ==> #[trigger] subs[j].name != #[trigger] canonical_sections()[b])
                && (pos < subs.len() ==> forall|b: int|
                0 <= b <= a ==> subs[pos].name != #[trigger] canonical_sections()[b]),
{
    let name = canonical_sections()[a];
    lemma_canonical_rank_is_position(name);
    let pos = first_higher_rank(subs, canonical_rank(name), 0);
    lemma_first_higher_rank(subs, canonical_rank(name), 0);
    lemma_first_higher_rank_first(subs, canonical_rank(name), 0);
    assert(canonical_rank(name) == a);
    assert forall|j: int, b: int| 0 <= j < pos && a < b < 6 implies #[trigger] subs[j].name
        != #[trigger] canonical_sections()[b] by {
        assert(canonical_rank(subs[j].name) <= a);
        assert(canonical_rank(canonical_sections()[b]) == b);
    }
    if pos < subs.len() {
        assert forall|b: int| 0 <= b <= a implies subs[pos].name != #[trigger] canonical_sections()[b] by {
            assert(canonical_rank(canonical_sections()[b]) == b);
        }
    }
    assert(insert_section(subs, name, entries) == subs.insert(pos, new_sub(name, sort_entries(entries))));
}

/// Where a new subsection named `name` goes: before the first subsection ranked after it.
pub fn section_insert_position(subs: &[Subsection], name: &[char]) -> (r: usize)
    ensures
        r as int == first_higher_rank(sub_views(subs@), canonical_rank(name@), 0),
        r <= subs.len(),
{
    let ghost sv = sub_views(subs@);
    let rank = canonical_rank_of(name);
    let mut k: usize = 0;
    while k < subs.len()
        invariant
            k <= subs.len(),
            sv == sub_views(subs@),
            rank == canonical_rank(name@),
            first_higher_rank(sv, rank, 0) == first_higher_rank(sv, rank, k as int),
        decreases subs.len() - k,
    {
        assert(sv[k as int] == subs@[k as int]@);
        if canonical_rank_of(&subs[k].name) > rank {
            return k;
        }
        k += 1;
    }
    k
}

/// The first subsection named `name`.
fn find_subsection(subs: &[Subsection], name: &[char]) -> (r: Option<usize>)
    ensures
        match r {
            Some(k) => find_sub(sub_views(subs@), name@, 0) == Some(k as int) && k < subs.len(),
            None => find_sub(sub_views(subs@), name@, 0) is None,
        },
{
    let ghost sv = sub_views(subs@);
    let mut k: usize = 0;
    while k < subs.len()
        invariant
            k <= subs.len(),
            sv == sub_views(subs@),
            find_sub(sv, name@, 0) == find_sub(sv, name@, k as int),
        decreases subs.len() - k,
    {
        assert(sv[k as int] == subs@[k as int]@);
        if chars_eq(&subs[k].name, name) {
            return Some(k);
        }
        k += 1;
    }
    None
}

/// Merges one section's entries into the subsections: into the existing subsection of that
/// name, or into a new one placed in canonical order.
pub fn insert_section_entries(
    subs: &mut Vec<Subsection>,
    name: &[char],
    entries: &[(u64, Vec<char>)],
)
    ensures
        sub_views(final(subs)@) == insert_section(sub_views(old(subs)@), name@, entry_views(entries@)),
{
    let ghost sv = sub_views(subs@);
    let sorted = sort_entry_list(entries);
    match find_subsection(subs, name) {
        Some(k) => {
            let mut sub = subs.remove(k);
            assert(sub@ == sv[k as int]);
            insert_entry_lines(&mut sub.body_lines, &sorted);
            let ghost new_view = sub@;
            subs.insert(k, sub);
            assert(sub_views(subs@) =~= sv.update(k as int, new_view));
        },
        None => {
            let mut body_lines: Vec<BulletLine> = Vec::new();
            body_lines.push(BulletLine::Prose(Vec::new()));
            let dash = chars_of("- ");
            let mut i: usize = 0;
            while i < sorted.len()
                invariant
                    i <= sorted.len(),
                    dash@ == "- "@,
                    body_lines@.len() == i + 1,
                    body_lines@[0]@ == BulletModel::Prose(seq![]),
                    forall|k: int|
                        0 <= k < i ==> (#[trigger] body_lines@[k + 1])@ == (BulletModel::Bullet {
                            pr: Some(sorted@[k].0),
                            text: entry_line(sorted@[k].1@),
                        }),
                decreases sorted.len() - i,
            {
                let mut line = copy_chars(&dash);
                append_chars(&mut line, &sorted[i].1);
                body_lines.push(BulletLine::Bullet { pr: Some(sorted[i].0), text: line });
                i += 1;
            }
            let mut heading = chars_of("### ");
            append_chars(&mut heading, name);
            let pos = section_insert_position(subs, name);
            let sub = Subsection { name: copy_chars(name), heading, body_lines };
            proof {
                let lhs = bullet_views(sub.body_lines@);
                let rhs = seq![BulletModel::Prose(seq![])] + entry_bullets(entry_views(sorted@));
                assert forall|k: int| 0 <= k < lhs.len() implies lhs[k] == rhs[k] by {
                    if k > 0 {
                        assert(sub.body_lines@[(k - 1) + 1]@ == (BulletModel::Bullet {
                            pr: Some(sorted@[k - 1].0),
                            text: entry_line(sorted@[k - 1].1@),
                        }));
                    }
                }
                assert(lhs =~= rhs);
            }
            assert(sub@ == new_sub(name@, sort_entries(entry_views(entries@))));
            subs.insert(pos, sub);
            assert(sub_views(subs@) =~= sv.insert(
                pos as int,
                new_sub(name@, sort_entries(entry_views(entries@))),
            ));
        },
    }
}

/// The prelude lines with the placeholder bullets inserted.
pub fn splice_bullets(prelude: &[Vec<char>], new_entries: &[(u64, Vec<char>)]) -> (r: Vec<
    Vec<char>,
>)
    ensures
        text::views(r@) == splice(text::views(prelude@), entry_views(new_entries@)),
{
    let mut items = classify_lines(prelude);
    let sorted = sort_entry_list(new_entries);
    insert_entry_lines(&mut items, &sorted);
    bullet_texts(&items)
}

// ---------------------------------------------------------------------------------------------
// Implementation: the whole merge.
// ---------------------------------------------------------------------------------------------

/// Whether a line is a reference definition (`[label]:`).
pub fn is_ref_def(line: &[char]) -> (r: bool)
    ensures
        r == is_ref_def_line(line@),
{
    let t = trim_start_chars(line);
    let open = chars_of("[");
    let close = chars_of("]");
    let colon = chars_of(":");
    proof {
        reveal_strlit("[");
    }
    if !has_prefix(&t, &open) {
        return false;
    }
    let rest = subslice(&t, 1, t.len());
    assert(rest@ =~= t@.skip(1));
    match find_chars(&rest, &close) {
        None => false,
        Some(idx) => {
            proof {
                text::lemma_find_from(rest@, close@, 0);
                reveal_strlit("]");
            }
            let after = subslice(&rest, idx + 1, rest.len());
            assert(after@ =~= rest@.skip(idx + 1));
            has_prefix(&after, &colon)
        },
    }
}

/// [`next_boundary`] stays within bounds.
pub proof fn lemma_next_boundary(ls: Seq<Seq<char>>, j: int)
    requires
        0 <= j <= ls.len(),
    ensures
        j <= next_boundary(ls, j) <= ls.len(),
        forall|k: int| j <= k < next_boundary(ls, j) ==> !is_boundary(#[trigger] ls[k]),
    decreases ls.len() - j,
{
    if j < ls.len() && !is_boundary(ls[j]) {
        lemma_next_boundary(ls, j + 1);
    }
}

/// [`find_unreleased`] finds the first heading.
pub proof fn lemma_find_unreleased(ls: Seq<Seq<char>>, i: int)
    requires
        0 <= i,
    ensures
        find_unreleased(ls, i) matches Some(u) ==> i <= u < ls.len() && is_unreleased_heading(
            ls[u],
        ),
        find_unreleased(ls, i) is None ==> forall|k: int|
            i <= k < ls.len() ==> !is_unreleased_heading(#[trigger] ls[k]),
    decreases ls.len() - i,
{
    if i < ls.len() && !is_unreleased_heading(ls[i]) {
        lemma_find_unreleased(ls, i + 1);
    }
}

/// The first `## [Unreleased]` heading.
fn find_unreleased_index(ls: &Vec<Vec<char>>) -> (r: Option<usize>)
    ensures
        match r {
            Some(u) => find_unreleased(text::views(ls@), 0) == Some(u as int) && u < ls.len(),
            None => find_unreleased(text::views(ls@), 0) is None,
        },
{
    let ghost lv = text::views(ls@);
    let heading = chars_of("## [Unreleased]");
    let mut u: usize = 0;
    while u < ls.len()
        invariant
            u <= ls.len(),
            lv == text::views(ls@),
            heading@ == "## [Unreleased]"@,
            find_unreleased(lv, 0) == find_unreleased(lv, u as int),
        decreases ls.len() - u,
    {
        assert(lv[u as int] == ls@[u as int]@);
        if chars_eq(&trim_chars(&ls[u]), &heading) {
            return Some(u);
        }
        u += 1;
    }
    None
}

/// Executable [`assemble_body`].
fn assemble_new_body(new_prelude: Vec<Vec<char>>, subs: &[Subsection]) -> (r: Vec<Vec<char>>)
    ensures
        text::views(r@) == assemble_body(text::views(new_prelude@), sub_views(subs@)),
{
    let ghost np = text::views(new_prelude@);
    let mut body = new_prelude;
    if subs.len() > 0 {
        if body.len() > 0 && body[body.len() - 1].len() != 0 {
            body.push(Vec::new());
            assert(text::views(body@) =~= np.push(seq![]));
        }
        let rendered = render_subsections(subs);
        append_lines(&mut body, &rendered);
    }
    let ghost nb = text::views(body@);
    if !(body.len() > 0 && body[body.len() - 1].len() == 0) {
        body.push(Vec::new());
        assert(text::views(body@) =~= nb.push(seq![]));
    }
    body
}

/// Merges new section entries and loose placeholder bullets into a changelog's
/// `## [Unreleased]` section, using sorted (ascending pull-request number) insertion.
///
/// `new_sections` pairs each section name with its entries, and is applied in the order given;
/// each entry is a pull-request number and the entry text without the leading `- `. Existing
/// entries and their exact formatting are left untouched; only whole new lines are inserted.
pub fn merge_into_unreleased(
    content: &str,
    new_sections: &Vec<(String, Vec<(u64, String)>)>,
    new_placeholders: &Vec<(u64, String)>,
) -> (r: Result<String, ChangelogError>)
    ensures
        match merge(content@, section_entry_views(new_sections@), string_entry_views(new_placeholders@)) {
            Some(out) => r matches Ok(s) && s@ == out,
            None => r == Err::<String, ChangelogError>(ChangelogError::NoUnreleasedHeading),
        },
{
    let c = chars_of(content);
    if new_sections.len() == 0 && new_placeholders.len() == 0 {
        return Ok(string_of(&c));
    }
    let ls = lines_of(&c);
    let ghost lv = text::views(ls@);
    let u = match find_unreleased_index(&ls) {
        Some(u) => u,
        None => {
            return Err(ChangelogError::NoUnreleasedHeading);
        },
    };
    assert(find_unreleased(lv, 0) == Some(u as int));
    let h2 = chars_of("## ");
    let mut b = u + 1;
    while b < ls.len() && !(has_prefix(&ls[b], &h2) || is_ref_def(&ls[b]))
        invariant
            u + 1 <= b <= ls.len(),
            lv == text::views(ls@),
            h2@ == "## "@,
            next_boundary(lv, u + 1) == next_boundary(lv, b as int),
        decreases ls.len() - b,
    {
        assert(lv[b as int] == ls@[b as int]@);
        b += 1;
    }
    if b < ls.len() {
        assert(lv[b as int] == ls@[b as int]@);
    }
    assert(next_boundary(lv, u + 1) == b as int);
    let body = lines_range(&ls, u + 1, b);
    let ghost bv = lv.subrange(u + 1, b as int);
    let h = next_h3_index(&body, 0);
    let prelude = lines_range(&body, 0, h);
    let rest = lines_range(&body, h, body.len());
    assert(text::views(prelude@) =~= bv.take(h as int));
    assert(text::views(rest@) =~= bv.skip(h as int));
    let ph = entries_of_strings(new_placeholders);
    let new_prelude = splice_bullets(&prelude, &ph);
    let mut subs = parse_subsections(&rest);
    let ghost secs = section_entry_views(new_sections@);
    let mut i: usize = 0;
    assert(secs.skip(0) =~= secs);
    while i < new_sections.len()
        invariant
            i <= new_sections.len(),
            secs == section_entry_views(new_sections@),
            insert_all_sections(sub_views(subs@), secs.skip(i as int)) == insert_all_sections(
                parse_subs_from(bv.skip(h as int), 0),
                secs,
            ),
        decreases new_sections.len() - i,
    {
        let name = chars_of(new_sections[i].0.as_str());
        let entries = entries_of_strings(&new_sections[i].1);
        assert(secs.skip(i as int)[0] == secs[i as int]);
        assert(secs.skip(i as int).drop_first() =~= secs.skip(i + 1));
        insert_section_entries(&mut subs, &name, &entries);
        i += 1;
    }
    assert(secs.skip(i as int) =~= Seq::<(Seq<char>, Seq<EntryModel>)>::empty());
    let new_body = assemble_new_body(new_prelude, &subs);
    let mut out_lines = lines_range(&ls, 0, u + 1);
    append_lines(&mut out_lines, &new_body);
    let tail = lines_range(&ls, b, ls.len());
    append_lines(&mut out_lines, &tail);
    assert(lv.subrange(0, u + 1) =~= lv.take(u + 1));
    assert(lv.subrange(b as int, lv.len() as int) =~= lv.skip(b as int));
    let mut out = join_chars(&out_lines);
    let nl = chars_of("\n");
    if text::has_suffix(&c, &nl) {
        out.push('\n');
    }
    Ok(string_of(&out))
}

} // verus!
