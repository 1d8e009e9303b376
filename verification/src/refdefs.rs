//! Inserting the reference-style link definitions (`[#N]: ...`, `[@login]: ...`) that new
//! changelog entries need, into the trailing definition block of the file.
//!
//! Only whole new lines are ever inserted: existing definitions (including `[MSRV]` and
//! version-compare links) are never moved or removed.

use crate::merge::{self, copy_chars, is_ref_def, lines_range, ChangelogError};
use crate::numbers;
use crate::subseq;
use crate::text::{
    self, append_chars, blank, chars_eq, chars_of, find_chars, has_prefix, join_chars, lex_less,
    lines_of, string_of, subslice, trim_start_chars,
};
use vstd::prelude::*;

verus! {

// ---------------------------------------------------------------------------------------------
// Specification.
// ---------------------------------------------------------------------------------------------

/// The label of a reference definition line: the text between `[` and the first `]`.
pub open spec fn def_label(line: Seq<char>) -> Option<Seq<char>> {
    let t = text::trim_start(line);
    if text::starts_with(t, "["@) {
        let rest = t.skip(1);
        match text::find(rest, "]"@) {
            None => None,
            Some(idx) => Some(rest.take(idx)),
        }
    } else {
        None
    }
}

/// The pull-request number of a `[#N]` definition.
pub open spec fn pr_label_num(line: Seq<char>) -> Option<u64> {
    match def_label(line) {
        Some(l) => if text::starts_with(l, "#"@) {
            numbers::parse_u64(l.skip(1))
        } else {
            None
        },
        None => None,
    }
}

/// The login of a `[@login]` definition.
pub open spec fn author_label(line: Seq<char>) -> Option<Seq<char>> {
    match def_label(line) {
        Some(l) => if text::starts_with(l, "@"@) {
            Some(l.skip(1))
        } else {
            None
        },
        None => None,
    }
}

/// The start of the maximal run of blank and definition lines ending at line `k`.
pub open spec fn block_start_below(ls: Seq<Seq<char>>, k: int) -> int
    decreases k,
{
    if k <= 0 || k > ls.len() {
        0
    } else if text::is_blank(ls[k - 1]) || merge::is_ref_def_line(ls[k - 1]) {
        block_start_below(ls, k - 1)
    } else {
        k
    }
}

/// The first line of the trailing reference-definition block: the maximal run of blank and
/// definition lines at the end of the file.
pub open spec fn trailing_block_start(ls: Seq<Seq<char>>) -> int {
    block_start_below(ls, ls.len() as int)
}

/// `ls` with `new_line` starting a fresh group at the very end, after a blank line unless the
/// last line is already blank.
pub open spec fn append_new_group(ls: Seq<Seq<char>>, new_line: Seq<char>) -> Seq<Seq<char>> {
    (if ls.len() > 0 && !text::is_blank(ls.last()) {
        ls.push(seq![])
    } else {
        ls
    }).push(new_line)
}

/// The first `[#N]` definition at or after `i`.
pub open spec fn first_pr_def_from(ls: Seq<Seq<char>>, i: int) -> Option<int>
    decreases ls.len() - i,
{
    if i < 0 || i >= ls.len() {
        None
    } else if pr_label_num(ls[i]) is Some {
        Some(i)
    } else {
        first_pr_def_from(ls, i + 1)
    }
}

/// The first `[#N]` definition at or after `i` with `N > n`.
pub open spec fn first_pr_greater_from(ls: Seq<Seq<char>>, n: u64, i: int) -> Option<int>
    decreases ls.len() - i,
{
    if i < 0 || i >= ls.len() {
        None
    } else if pr_label_num(ls[i]) matches Some(e) && e > n {
        Some(i)
    } else {
        first_pr_greater_from(ls, n, i + 1)
    }
}

/// The last `[#N]` definition in `lo..k`.
pub open spec fn last_pr_def(ls: Seq<Seq<char>>, lo: int, k: int) -> Option<int>
    decreases k - lo,
{
    if k <= lo || k > ls.len() || lo < 0 {
        None
    } else if pr_label_num(ls[k - 1]) is Some {
        Some(k - 1)
    } else {
        last_pr_def(ls, lo, k - 1)
    }
}

/// The first `[@login]` definition at or after `i` whose login sorts after `login`.
pub open spec fn first_author_greater_from(ls: Seq<Seq<char>>, login: Seq<char>, i: int) -> Option<
    int,
>
    decreases ls.len() - i,
{
    if i < 0 || i >= ls.len() {
        None
    } else if author_label(ls[i]) matches Some(e) && text::lex_lt(login, e) {
        Some(i)
    } else {
        first_author_greater_from(ls, login, i + 1)
    }
}

/// The last `[@login]` definition in `lo..k`.
pub open spec fn last_author_def(ls: Seq<Seq<char>>, lo: int, k: int) -> Option<int>
    decreases k - lo,
{
    if k <= lo || k > ls.len() || lo < 0 {
        None
    } else if author_label(ls[k - 1]) is Some {
        Some(k - 1)
    } else {
        last_author_def(ls, lo, k - 1)
    }
}

/// `ls` with a `[#n]` definition line inserted into the trailing block, in ascending order
/// among the block's `[#N]` definitions, or as a new group at the end when there are none.
pub open spec fn insert_pr_def(ls: Seq<Seq<char>>, n: u64, new_line: Seq<char>) -> Seq<Seq<char>> {
    let bs = trailing_block_start(ls);
    match last_pr_def(ls, bs, ls.len() as int) {
        None => append_new_group(ls, new_line),
        Some(last) => ls.insert(
            match first_pr_greater_from(ls, n, bs) {
                Some(i) => i,
                None => last + 1,
            },
            new_line,
        ),
    }
}

/// `ls` with a `[@login]` definition line inserted into the trailing block, in alphabetical
/// order among the block's `[@login]` definitions; when there are none, as a new group just
/// before the block's first `[#N]` definition (followed by a blank line), or at the end.
pub open spec fn insert_author_def(ls: Seq<Seq<char>>, login: Seq<char>, new_line: Seq<char>) -> Seq<
    Seq<char>,
> {
    let bs = trailing_block_start(ls);
    match last_author_def(ls, bs, ls.len() as int) {
        None => match first_pr_def_from(ls, bs) {
            Some(fp) => ls.insert(fp, seq![]).insert(fp, new_line),
            None => append_new_group(ls, new_line),
        },
        Some(last) => ls.insert(
            match first_author_greater_from(ls, login, bs) {
                Some(i) => i,
                None => last + 1,
            },
            new_line,
        ),
    }
}

/// The definition line for an author.
pub open spec fn author_def_line(a: Seq<char>) -> Seq<char> {
    "[@"@ + a + "]: https://github.com/"@ + a
}

/// The definition line for a pull request of `repo`.
pub open spec fn pr_def_line(repo: Seq<char>, n: u64) -> Seq<char> {
    "[#"@ + numbers::decimal(n as nat) + "]: https://github.com/"@ + repo + "/pull/"@
        + numbers::decimal(n as nat)
}

/// Whether a line is a reference definition of `[#n]`: `[#n]:` after optional whitespace.
pub open spec fn is_pr_def_of(line: Seq<char>, n: u64) -> bool {
    merge::is_ref_def_line(line) && pr_label_num(line) == Some(n)
}

/// Whether a line is a reference definition of `[@a]`: `[@a]:` after optional whitespace.
pub open spec fn is_author_def_of(line: Seq<char>, a: Seq<char>) -> bool {
    merge::is_ref_def_line(line) && author_label(line) == Some(a)
}

/// Whether some line is a reference definition of `[#n]`.
pub open spec fn has_pr_def(ls: Seq<Seq<char>>, n: u64) -> bool {
    exists|i: int| 0 <= i < ls.len() && is_pr_def_of(#[trigger] ls[i], n)
}

/// Whether some line is a reference definition of `[@a]`.
pub open spec fn has_author_def(ls: Seq<Seq<char>>, a: Seq<char>) -> bool {
    exists|i: int| 0 <= i < ls.len() && is_author_def_of(#[trigger] ls[i], a)
}

/// `ls` with a definition inserted, in order, for each author it does not define yet.
pub open spec fn add_authors(ls: Seq<Seq<char>>, authors: Seq<Seq<char>>) -> Seq<
    Seq<char>,
>
    decreases authors.len(),
{
    if authors.len() == 0 {
        ls
    } else {
        let a = authors[0];
        add_authors(
            if has_author_def(ls, a) {
                ls
            } else {
                insert_author_def(ls, a, author_def_line(a))
            },
            authors.drop_first(),
        )
    }
}

/// `ls` with a definition inserted, in order, for each pull request it does not define yet.
pub open spec fn add_prs(ls: Seq<Seq<char>>, repo: Seq<char>, prs: Seq<u64>) -> Seq<
    Seq<char>,
>
    decreases prs.len(),
{
    if prs.len() == 0 {
        ls
    } else {
        let n = prs[0];
        add_prs(
            if has_pr_def(ls, n) {
                ls
            } else {
                insert_pr_def(ls, n, pr_def_line(repo, n))
            },
            repo,
            prs.drop_first(),
        )
    }
}

/// The lines with the missing author definitions, then the missing pull-request definitions,
/// inserted.
pub open spec fn update_lines(
    ls: Seq<Seq<char>>,
    repo: Seq<char>,
    prs: Seq<u64>,
    authors: Seq<Seq<char>>,
) -> Seq<Seq<char>> {
    add_prs(add_authors(ls, authors), repo, prs)
}

/// The changelog with the definitions that `prs` and `authors` need.
pub open spec fn update_defs(
    content: Seq<char>,
    repo: Seq<char>,
    prs: Seq<u64>,
    authors: Seq<Seq<char>>,
) -> Seq<char> {
    if prs.len() == 0 && authors.len() == 0 {
        content
    } else {
        merge::with_final_newline(
            text::join_lines(update_lines(text::lines(content), repo, prs, authors)),
            content,
        )
    }
}

// ---------------------------------------------------------------------------------------------
// Only insertions.
// ---------------------------------------------------------------------------------------------

/// Starting a new group only adds lines.
pub proof fn lemma_append_new_group_subseq(ls: Seq<Seq<char>>, new_line: Seq<char>)
    ensures
        subseq::is_subseq(ls, append_new_group(ls, new_line)),
{
    if ls.len() > 0 && !text::is_blank(ls.last()) {
        subseq::lemma_subseq_prefix(ls, seq![seq![], new_line]);
        assert(ls + seq![seq![], new_line] =~= append_new_group(ls, new_line));
    } else {
        subseq::lemma_subseq_prefix(ls, seq![new_line]);
        assert(ls + seq![new_line] =~= append_new_group(ls, new_line));
    }
}

/// Bounds of [`first_pr_def_from`].
pub proof fn lemma_first_pr_def_from(ls: Seq<Seq<char>>, i: int)
    requires
        0 <= i,
    ensures
        first_pr_def_from(ls, i) matches Some(k) ==> i <= k < ls.len() && pr_label_num(ls[k]) is Some,
    decreases ls.len() - i,
{
    if i < ls.len() && pr_label_num(ls[i]) is None {
        lemma_first_pr_def_from(ls, i + 1);
    }
}

/// Bounds of [`first_pr_greater_from`].
pub proof fn lemma_first_pr_greater_from(ls: Seq<Seq<char>>, n: u64, i: int)
    requires
        0 <= i,
    ensures
        first_pr_greater_from(ls, n, i) matches Some(k) ==> i <= k < ls.len(),
    decreases ls.len() - i,
{
    if i < ls.len() && !(pr_label_num(ls[i]) matches Some(e) && e > n) {
        lemma_first_pr_greater_from(ls, n, i + 1);
    }
}

/// Bounds of [`first_author_greater_from`].
pub proof fn lemma_first_author_greater_from(ls: Seq<Seq<char>>, login: Seq<char>, i: int)
    requires
        0 <= i,
    ensures
        first_author_greater_from(ls, login, i) matches Some(k) ==> i <= k < ls.len(),
    decreases ls.len() - i,
{
    if i < ls.len() && !(author_label(ls[i]) matches Some(e) && text::lex_lt(login, e)) {
        lemma_first_author_greater_from(ls, login, i + 1);
    }
}

/// Bounds of [`last_pr_def`].
pub proof fn lemma_last_pr_def(ls: Seq<Seq<char>>, lo: int, k: int)
    ensures
        last_pr_def(ls, lo, k) matches Some(j) ==> lo <= j < k <= ls.len() && 0 <= lo,
    decreases k - lo,
{
    if k > lo && k <= ls.len() && lo >= 0 && pr_label_num(ls[k - 1]) is None {
        lemma_last_pr_def(ls, lo, k - 1);
    }
}

/// Bounds of [`last_author_def`].
pub proof fn lemma_last_author_def(ls: Seq<Seq<char>>, lo: int, k: int)
    ensures
        last_author_def(ls, lo, k) matches Some(j) ==> lo <= j < k <= ls.len() && 0 <= lo,
    decreases k - lo,
{
    if k > lo && k <= ls.len() && lo >= 0 && author_label(ls[k - 1]) is None {
        lemma_last_author_def(ls, lo, k - 1);
    }
}

/// Bounds of [`block_start_below`].
pub proof fn lemma_block_start_below(ls: Seq<Seq<char>>, k: int)
    requires
        0 <= k <= ls.len(),
    ensures
        0 <= block_start_below(ls, k) <= k,
    decreases k,
{
    if k > 0 && (text::is_blank(ls[k - 1]) || merge::is_ref_def_line(ls[k - 1])) {
        lemma_block_start_below(ls, k - 1);
    }
}

/// Inserting a `[#N]` definition only adds lines.
pub proof fn lemma_insert_pr_def_subseq(ls: Seq<Seq<char>>, n: u64, new_line: Seq<char>)
    ensures
        subseq::is_subseq(ls, insert_pr_def(ls, n, new_line)),
{
    let bs = trailing_block_start(ls);
    lemma_block_start_below(ls, ls.len() as int);
    lemma_last_pr_def(ls, bs, ls.len() as int);
    lemma_first_pr_greater_from(ls, n, bs);
    match last_pr_def(ls, bs, ls.len() as int) {
        None => lemma_append_new_group_subseq(ls, new_line),
        Some(last) => {
            let at = match first_pr_greater_from(ls, n, bs) {
                Some(i) => i,
                None => last + 1,
            };
            subseq::lemma_subseq_insert(ls, at, new_line);
        },
    }
}

/// Inserting a `[@login]` definition only adds lines.
pub proof fn lemma_insert_author_def_subseq(ls: Seq<Seq<char>>, login: Seq<char>, new_line: Seq<char>)
    ensures
        subseq::is_subseq(ls, insert_author_def(ls, login, new_line)),
{
    let bs = trailing_block_start(ls);
    lemma_block_start_below(ls, ls.len() as int);
    lemma_last_author_def(ls, bs, ls.len() as int);
    lemma_first_author_greater_from(ls, login, bs);
    lemma_first_pr_def_from(ls, bs);
    match last_author_def(ls, bs, ls.len() as int) {
        None => match first_pr_def_from(ls, bs) {
            Some(fp) => {
                subseq::lemma_subseq_insert(ls, fp, seq![]);
                subseq::lemma_subseq_insert(ls.insert(fp, seq![]), fp, new_line);
                subseq::lemma_subseq_trans(ls, ls.insert(fp, seq![]), insert_author_def(ls, login, new_line));
            },
            None => lemma_append_new_group_subseq(ls, new_line),
        },
        Some(last) => {
            let at = match first_author_greater_from(ls, login, bs) {
                Some(i) => i,
                None => last + 1,
            };
            subseq::lemma_subseq_insert(ls, at, new_line);
        },
    }
}

/// Adding author definitions only adds lines.
pub proof fn lemma_add_authors_subseq(ls: Seq<Seq<char>>, authors: Seq<Seq<char>>)
    ensures
        subseq::is_subseq(ls, add_authors(ls, authors)),
    decreases authors.len(),
{
    if authors.len() == 0 {
        subseq::lemma_subseq_refl(ls);
    } else {
        let a = authors[0];
        let next = if has_author_def(ls, a) {
            ls
        } else {
            insert_author_def(ls, a, author_def_line(a))
        };
        if has_author_def(ls, a) {
            subseq::lemma_subseq_refl(ls);
        } else {
            lemma_insert_author_def_subseq(ls, a, author_def_line(a));
        }
        lemma_add_authors_subseq(next, authors.drop_first());
        subseq::lemma_subseq_trans(ls, next, add_authors(next, authors.drop_first()));
    }
}

/// Adding pull-request definitions only adds lines.
pub proof fn lemma_add_prs_subseq(ls: Seq<Seq<char>>, repo: Seq<char>, prs: Seq<u64>)
    ensures
        subseq::is_subseq(ls, add_prs(ls, repo, prs)),
    decreases prs.len(),
{
    if prs.len() == 0 {
        subseq::lemma_subseq_refl(ls);
    } else {
        let n = prs[0];
        let next = if has_pr_def(ls, n) {
            ls
        } else {
            insert_pr_def(ls, n, pr_def_line(repo, n))
        };
        if has_pr_def(ls, n) {
            subseq::lemma_subseq_refl(ls);
        } else {
            lemma_insert_pr_def_subseq(ls, n, pr_def_line(repo, n));
        }
        lemma_add_prs_subseq(next, repo, prs.drop_first());
        subseq::lemma_subseq_trans(ls, next, add_prs(next, repo, prs.drop_first()));
    }
}

/// Updating the definitions keeps every line of the given lines, in order.
pub proof fn lemma_update_lines_subseq(
    ls: Seq<Seq<char>>,
    repo: Seq<char>,
    prs: Seq<u64>,
    authors: Seq<Seq<char>>,
)
    ensures
        subseq::is_subseq(ls, update_lines(ls, repo, prs, authors)),
{
    let mid = add_authors(ls, authors);
    lemma_add_authors_subseq(ls, authors);
    lemma_add_prs_subseq(mid, repo, prs);
    subseq::lemma_subseq_trans(ls, mid, update_lines(ls, repo, prs, authors));
}

// ---------------------------------------------------------------------------------------------
// Every requested definition is there afterwards.
// ---------------------------------------------------------------------------------------------

/// The label of a definition line `[label]...`, where the label holds no `]`.
proof fn lemma_def_label_of(label: Seq<char>, tail: Seq<char>)
    requires
        !text::has_char(label, ']'),
        tail.len() > 0,
        tail[0] == ']',
    ensures
        def_label(seq!['['] + label + tail) == Some(label),
{
    reveal_strlit("[");
    reveal_strlit("]");
    let line = seq!['['] + label + tail;
    assert(!text::is_white('['));
    assert(text::trim_start(line) == line);
    assert(text::starts_with(line, "["@)) by {
        assert(line.take(1) =~= "["@);
    }
    let rest = line.skip(1);
    assert(rest =~= label + tail);
    assert("]"@ =~= seq![']']);
    text::lemma_find_char(rest, ']');
    assert(rest[label.len() as int] == ']');
    let i = text::find(rest, seq![']'])->0;
    if i < label.len() {
        assert(rest[i] == label[i]);
    }
    assert(i == label.len());
    assert(rest.take(i) =~= label);
}

/// A pull-request definition line defines that pull request.
proof fn lemma_pr_def_line_label(repo: Seq<char>, n: u64)
    ensures
        pr_label_num(pr_def_line(repo, n)) == Some(n),
{
    reveal_strlit("[#");
    reveal_strlit("]: https://github.com/");
    reveal_strlit("/pull/");
    reveal_strlit("#");
    let d = numbers::decimal(n as nat);
    numbers::lemma_decimal(n as nat);
    numbers::lemma_parse_decimal(n);
    let label = seq!['#'] + d;
    let tail = "]: https://github.com/"@ + repo + "/pull/"@ + d;
    assert(!text::has_char(label, ']')) by {
        assert forall|k: int| 0 <= k < label.len() implies label[k] != ']' by {
            if k > 0 {
                assert(label[k] == d[k - 1]);
                assert(numbers::is_digit(d[k - 1]));
            }
        }
    }
    assert(tail[0] == ']');
    assert(pr_def_line(repo, n) =~= seq!['['] + label + tail);
    lemma_def_label_of(label, tail);
    assert(text::starts_with(label, "#"@)) by {
        assert(label.take(1) =~= "#"@);
    }
    assert(label.skip(1) =~= d);
}

/// An author definition line defines that author, when the login holds no `]`.
proof fn lemma_author_def_line_label(a: Seq<char>)
    requires
        !text::has_char(a, ']'),
    ensures
        author_label(author_def_line(a)) == Some(a),
{
    reveal_strlit("[@");
    reveal_strlit("]: https://github.com/");
    reveal_strlit("@");
    let label = seq!['@'] + a;
    let tail = "]: https://github.com/"@ + a;
    assert(!text::has_char(label, ']')) by {
        assert forall|k: int| 0 <= k < label.len() implies label[k] != ']' by {
            if k > 0 {
                assert(label[k] == a[k - 1]);
            }
        }
    }
    assert(tail[0] == ']');
    assert(author_def_line(a) =~= seq!['['] + label + tail);
    lemma_def_label_of(label, tail);
    assert(text::starts_with(label, "@"@)) by {
        assert(label.take(1) =~= "@"@);
    }
    assert(label.skip(1) =~= a);
}

/// The new line is among the lines after a group is started with it.
proof fn lemma_append_new_group_contains(ls: Seq<Seq<char>>, new_line: Seq<char>)
    ensures
        append_new_group(ls, new_line).contains(new_line),
{
    let out = append_new_group(ls, new_line);
    assert(out[out.len() - 1] == new_line);
}

/// The new line is among the lines after a `[#N]` definition is inserted.
proof fn lemma_insert_pr_def_contains(ls: Seq<Seq<char>>, n: u64, new_line: Seq<char>)
    ensures
        insert_pr_def(ls, n, new_line).contains(new_line),
{
    let bs = trailing_block_start(ls);
    lemma_block_start_below(ls, ls.len() as int);
    lemma_last_pr_def(ls, bs, ls.len() as int);
    lemma_first_pr_greater_from(ls, n, bs);
    match last_pr_def(ls, bs, ls.len() as int) {
        None => lemma_append_new_group_contains(ls, new_line),
        Some(last) => {
            let at = match first_pr_greater_from(ls, n, bs) {
                Some(i) => i,
                None => last + 1,
            };
            assert(ls.insert(at, new_line)[at] == new_line);
        },
    }
}

/// The new line is among the lines after a `[@login]` definition is inserted.
proof fn lemma_insert_author_def_contains(ls: Seq<Seq<char>>, login: Seq<char>, new_line: Seq<char>)
    ensures
        insert_author_def(ls, login, new_line).contains(new_line),
{
    let bs = trailing_block_start(ls);
    lemma_block_start_below(ls, ls.len() as int);
    lemma_last_author_def(ls, bs, ls.len() as int);
    lemma_first_author_greater_from(ls, login, bs);
    lemma_first_pr_def_from(ls, bs);
    match last_author_def(ls, bs, ls.len() as int) {
        None => match first_pr_def_from(ls, bs) {
            Some(fp) => {
                assert(ls.insert(fp, seq![]).insert(fp, new_line)[fp] == new_line);
            },
            None => lemma_append_new_group_contains(ls, new_line),
        },
        Some(last) => {
            let at = match first_author_greater_from(ls, login, bs) {
                Some(i) => i,
                None => last + 1,
            };
            assert(ls.insert(at, new_line)[at] == new_line);
        },
    }
}

/// Definitions survive insertions.
proof fn lemma_defs_kept(a: Seq<Seq<char>>, b: Seq<Seq<char>>)
    requires
        subseq::is_subseq(a, b),
    ensures
        forall|n: u64| has_pr_def(a, n) ==> #[trigger] has_pr_def(b, n),
        forall|l: Seq<char>| has_author_def(a, l) ==> #[trigger] has_author_def(b, l),
{
    let f = choose|f: Seq<int>| subseq::embeds(a, b, f);
    assert forall|n: u64| has_pr_def(a, n) implies #[trigger] has_pr_def(b, n) by {
        let i = choose|i: int| 0 <= i < a.len() && is_pr_def_of(#[trigger] a[i], n);
        assert(b[f[i]] == a[i]);
    }
    assert forall|l: Seq<char>| has_author_def(a, l) implies #[trigger] has_author_def(b, l) by {
        let i = choose|i: int| 0 <= i < a.len() && is_author_def_of(#[trigger] a[i], l);
        assert(b[f[i]] == a[i]);
    }
}

/// After adding pull-request definitions, each requested one is defined.
proof fn lemma_add_prs_defines(ls: Seq<Seq<char>>, repo: Seq<char>, prs: Seq<u64>)
    ensures
        forall|i: int| 0 <= i < prs.len() ==> has_pr_def(add_prs(ls, repo, prs), #[trigger] prs[i]),
    decreases prs.len(),
{
    if prs.len() > 0 {
        let n = prs[0];
        let next = if has_pr_def(ls, n) {
            ls
        } else {
            insert_pr_def(ls, n, pr_def_line(repo, n))
        };
        lemma_add_prs_defines(next, repo, prs.drop_first());
        let out = add_prs(next, repo, prs.drop_first());
        lemma_add_prs_subseq(next, repo, prs.drop_first());
        lemma_defs_kept(next, out);
        assert(has_pr_def(next, n)) by {
            if !has_pr_def(ls, n) {
                lemma_insert_pr_def_contains(ls, n, pr_def_line(repo, n));
                lemma_pr_def_line_label(repo, n);
                lemma_pr_def_line_is_def(repo, n);
                let k = choose|k: int| 0 <= k < next.len() && next[k] == pr_def_line(repo, n);
                assert(is_pr_def_of(next[k], n));
            }
        }
        assert forall|i: int| 0 <= i < prs.len() implies has_pr_def(out, #[trigger] prs[i]) by {
            if i > 0 {
                assert(prs.drop_first()[i - 1] == prs[i]);
            }
        }
    }
}

/// After adding author definitions, each requested author whose login holds no `]` is
/// defined.
proof fn lemma_add_authors_defines(ls: Seq<Seq<char>>, authors: Seq<Seq<char>>)
    requires
        forall|i: int| 0 <= i < authors.len() ==> !text::has_char(#[trigger] authors[i], ']'),
    ensures
        forall|i: int|
            0 <= i < authors.len() ==> has_author_def(add_authors(ls, authors), #[trigger] authors[i]),
    decreases authors.len(),
{
    if authors.len() > 0 {
        let a = authors[0];
        let next = if has_author_def(ls, a) {
            ls
        } else {
            insert_author_def(ls, a, author_def_line(a))
        };
        assert forall|i: int| 0 <= i < authors.drop_first().len() implies !text::has_char(
            #[trigger] authors.drop_first()[i],
            ']',
        ) by {
            assert(authors.drop_first()[i] == authors[i + 1]);
        }
        lemma_add_authors_defines(next, authors.drop_first());
        let out = add_authors(next, authors.drop_first());
        lemma_add_authors_subseq(next, authors.drop_first());
        lemma_defs_kept(next, out);
        assert(has_author_def(next, a)) by {
            if !has_author_def(ls, a) {
                assert(!text::has_char(authors[0], ']'));
                lemma_insert_author_def_contains(ls, a, author_def_line(a));
                lemma_author_def_line_label(a);
                lemma_author_def_line_is_def(a);
                let k = choose|k: int| 0 <= k < next.len() && next[k] == author_def_line(a);
                assert(is_author_def_of(next[k], a));
            }
        }
        assert forall|i: int| 0 <= i < authors.len() implies has_author_def(out, #[trigger] authors[i]) by {
            if i > 0 {
                assert(authors.drop_first()[i - 1] == authors[i]);
            }
        }
    }
}

/// After the definitions are updated, every requested pull request has a `[#N]` definition
/// and every requested author (whose login holds no `]`) a `[@login]` one.
pub proof fn lemma_update_defines_all(
    ls: Seq<Seq<char>>,
    repo: Seq<char>,
    prs: Seq<u64>,
    authors: Seq<Seq<char>>,
)
    requires
        forall|i: int| 0 <= i < authors.len() ==> !text::has_char(#[trigger] authors[i], ']'),
    ensures
        forall|i: int| 0 <= i < prs.len() ==> has_pr_def(update_lines(ls, repo, prs, authors), #[trigger] prs[i]),
        forall|i: int|
            0 <= i < authors.len() ==> has_author_def(update_lines(ls, repo, prs, authors), #[trigger] authors[i]),
{
    let mid = add_authors(ls, authors);
    subseq::lemma_subseq_refl(ls);
    lemma_add_authors_defines(ls, authors);
    lemma_add_authors_subseq(ls, authors);
    lemma_add_prs_defines(mid, repo, prs);
    lemma_add_prs_subseq(mid, repo, prs);
    lemma_defs_kept(mid, update_lines(ls, repo, prs, authors));
}

/// Adding pull-request definitions that all exist already changes nothing.
proof fn lemma_add_prs_none_missing(ls: Seq<Seq<char>>, repo: Seq<char>, prs: Seq<u64>)
    requires
        forall|i: int| 0 <= i < prs.len() ==> has_pr_def(ls, #[trigger] prs[i]),
    ensures
        add_prs(ls, repo, prs) == ls,
    decreases prs.len(),
{
    if prs.len() > 0 {
        assert(has_pr_def(ls, prs[0]));
        assert forall|i: int| 0 <= i < prs.drop_first().len() implies has_pr_def(ls, #[trigger] prs.drop_first()[i]) by {
            assert(prs.drop_first()[i] == prs[i + 1]);
        }
        lemma_add_prs_none_missing(ls, repo, prs.drop_first());
    }
}

/// Adding author definitions that all exist already changes nothing.
proof fn lemma_add_authors_none_missing(ls: Seq<Seq<char>>, authors: Seq<Seq<char>>)
    requires
        forall|i: int| 0 <= i < authors.len() ==> has_author_def(ls, #[trigger] authors[i]),
    ensures
        add_authors(ls, authors) == ls,
    decreases authors.len(),
{
    if authors.len() > 0 {
        assert(has_author_def(ls, authors[0]));
        assert forall|i: int| 0 <= i < authors.drop_first().len() implies has_author_def(ls, #[trigger] authors.drop_first()[i]) by {
            assert(authors.drop_first()[i] == authors[i + 1]);
        }
        lemma_add_authors_none_missing(ls, authors.drop_first());
    }
}

/// Updating the definitions a second time with the same requests changes nothing (for logins
/// that hold no `]`).
pub proof fn lemma_update_idempotent(
    ls: Seq<Seq<char>>,
    repo: Seq<char>,
    prs: Seq<u64>,
    authors: Seq<Seq<char>>,
)
    requires
        forall|i: int| 0 <= i < authors.len() ==> !text::has_char(#[trigger] authors[i], ']'),
    ensures
        update_lines(update_lines(ls, repo, prs, authors), repo, prs, authors) == update_lines(
            ls,
            repo,
            prs,
            authors,
        ),
{
    let once = update_lines(ls, repo, prs, authors);
    lemma_update_defines_all(ls, repo, prs, authors);
    lemma_add_authors_none_missing(once, authors);
    lemma_add_prs_none_missing(once, repo, prs);
}

// ---------------------------------------------------------------------------------------------
// Each label is defined at most once more.
// ---------------------------------------------------------------------------------------------

/// Whether a line defines `[#n]`.
pub open spec fn defines_pr(n: u64) -> spec_fn(Seq<char>) -> bool {
    |l: Seq<char>| is_pr_def_of(l, n)
}

/// Whether a line defines `[@a]`.
pub open spec fn defines_author(a: Seq<char>) -> spec_fn(Seq<char>) -> bool {
    |l: Seq<char>| is_author_def_of(l, a)
}

/// How many lines satisfy `p`.
pub open spec fn count_lines(ls: Seq<Seq<char>>, p: spec_fn(Seq<char>) -> bool) -> nat
    decreases ls.len(),
{
    if ls.len() == 0 {
        0
    } else {
        count_lines(ls.drop_last(), p) + if p(ls.last()) {
            1nat
        } else {
            0nat
        }
    }
}

/// How many lines define `[#n]`.
pub open spec fn pr_def_count(ls: Seq<Seq<char>>, n: u64) -> nat {
    count_lines(ls, defines_pr(n))
}

/// How many lines define `[@a]`.
pub open spec fn author_def_count(ls: Seq<Seq<char>>, a: Seq<char>) -> nat {
    count_lines(ls, defines_author(a))
}

/// Counting over two pieces adds up.
proof fn lemma_count_concat(a: Seq<Seq<char>>, b: Seq<Seq<char>>, p: spec_fn(Seq<char>) -> bool)
    ensures
        count_lines(a + b, p) == count_lines(a, p) + count_lines(b, p),
    decreases b.len(),
{
    if b.len() == 0 {
        assert(a + b =~= a);
    } else {
        lemma_count_concat(a, b.drop_last(), p);
        assert((a + b).drop_last() =~= a + b.drop_last());
        assert((a + b).last() == b.last());
    }
}

/// Inserting a line counts it once.
proof fn lemma_count_insert(ls: Seq<Seq<char>>, at: int, x: Seq<char>, p: spec_fn(Seq<char>) -> bool)
    requires
        0 <= at <= ls.len(),
    ensures
        count_lines(ls.insert(at, x), p) == count_lines(ls, p) + if p(x) {
            1nat
        } else {
            0nat
        },
{
    let a = ls.take(at);
    let b = ls.skip(at);
    assert(ls =~= a + b);
    assert(ls.insert(at, x) =~= a + (seq![x] + b));
    lemma_count_concat(a, b, p);
    lemma_count_concat(a, seq![x] + b, p);
    lemma_count_concat(seq![x], b, p);
    assert(seq![x].drop_last() =~= Seq::<Seq<char>>::empty());
    assert(count_lines(Seq::<Seq<char>>::empty(), p) == 0);
}

/// Starting a new group adds the new line and perhaps a blank line.
proof fn lemma_count_new_group(ls: Seq<Seq<char>>, line: Seq<char>, p: spec_fn(Seq<char>) -> bool)
    requires
        !p(Seq::<char>::empty()),
    ensures
        count_lines(append_new_group(ls, line), p) == count_lines(ls, p) + if p(line) {
            1nat
        } else {
            0nat
        },
{
    if ls.len() > 0 && !text::is_blank(ls.last()) {
        lemma_count_insert(ls, ls.len() as int, seq![], p);
        assert(ls.insert(ls.len() as int, seq![]) =~= ls.push(seq![]));
        let l2 = ls.push(seq![]);
        lemma_count_insert(l2, l2.len() as int, line, p);
        assert(l2.insert(l2.len() as int, line) =~= l2.push(line));
    } else {
        lemma_count_insert(ls, ls.len() as int, line, p);
        assert(ls.insert(ls.len() as int, line) =~= ls.push(line));
    }
}

/// Inserting a `[#m]` definition adds one line, which defines `[#m]` and no author.
proof fn lemma_insert_pr_def_counts(ls: Seq<Seq<char>>, repo: Seq<char>, m: u64, p: spec_fn(Seq<char>) -> bool)
    requires
        !p(Seq::<char>::empty()),
    ensures
        count_lines(insert_pr_def(ls, m, pr_def_line(repo, m)), p) == count_lines(ls, p) + if p(
            pr_def_line(repo, m),
        ) {
            1nat
        } else {
            0nat
        },
{
    let line = pr_def_line(repo, m);
    let bs = trailing_block_start(ls);
    lemma_block_start_below(ls, ls.len() as int);
    lemma_last_pr_def(ls, bs, ls.len() as int);
    lemma_first_pr_greater_from(ls, m, bs);
    match last_pr_def(ls, bs, ls.len() as int) {
        None => {
            lemma_count_new_group(ls, line, p);
        },
        Some(last) => {
            let at = match first_pr_greater_from(ls, m, bs) {
                Some(i) => i,
                None => last + 1,
            };
            lemma_count_insert(ls, at, line, p);
        },
    }
}

/// Inserting an `[@a]` definition adds one line, which defines `[@a]` and no pull request, and
/// perhaps a blank line.
proof fn lemma_insert_author_def_counts(ls: Seq<Seq<char>>, a: Seq<char>, p: spec_fn(Seq<char>) -> bool)
    requires
        !p(Seq::<char>::empty()),
    ensures
        count_lines(insert_author_def(ls, a, author_def_line(a)), p) == count_lines(ls, p) + if p(
            author_def_line(a),
        ) {
            1nat
        } else {
            0nat
        },
{
    let line = author_def_line(a);
    let bs = trailing_block_start(ls);
    lemma_block_start_below(ls, ls.len() as int);
    lemma_last_author_def(ls, bs, ls.len() as int);
    lemma_first_author_greater_from(ls, a, bs);
    lemma_first_pr_def_from(ls, bs);
    match last_author_def(ls, bs, ls.len() as int) {
        None => match first_pr_def_from(ls, bs) {
            Some(fp) => {
                lemma_count_insert(ls, fp, seq![], p);
                lemma_count_insert(ls.insert(fp, seq![]), fp, line, p);
            },
            None => {
                lemma_count_new_group(ls, line, p);
            },
        },
        Some(last) => {
            let at = match first_author_greater_from(ls, a, bs) {
                Some(i) => i,
                None => last + 1,
            };
            lemma_count_insert(ls, at, line, p);
        },
    }
}

/// A positive count means some line satisfies `p`.
proof fn lemma_count_pos(ls: Seq<Seq<char>>, p: spec_fn(Seq<char>) -> bool)
    ensures
        count_lines(ls, p) > 0 <==> exists|k: int| 0 <= k < ls.len() && p(#[trigger] ls[k]),
    decreases ls.len(),
{
    if ls.len() > 0 {
        let d = ls.drop_last();
        lemma_count_pos(d, p);
        if exists|k: int| 0 <= k < d.len() && p(#[trigger] d[k]) {
            let k = choose|k: int| 0 <= k < d.len() && p(#[trigger] d[k]);
            assert(ls[k] == d[k]);
        }
        if exists|k: int| 0 <= k < ls.len() && p(#[trigger] ls[k]) {
            let k = choose|k: int| 0 <= k < ls.len() && p(#[trigger] ls[k]);
            if k < ls.len() - 1 {
                assert(d[k] == ls[k]);
            }
        }
    }
}

/// A label is defined exactly when some line counts for it.
proof fn lemma_has_def_count(ls: Seq<Seq<char>>, n: u64, a: Seq<char>)
    ensures
        has_pr_def(ls, n) <==> pr_def_count(ls, n) > 0,
        has_author_def(ls, a) <==> author_def_count(ls, a) > 0,
{
    lemma_count_pos(ls, defines_pr(n));
    lemma_count_pos(ls, defines_author(a));
    if has_pr_def(ls, n) {
        let k = choose|k: int| 0 <= k < ls.len() && is_pr_def_of(#[trigger] ls[k], n);
        assert(defines_pr(n)(ls[k]));
    }
    if pr_def_count(ls, n) > 0 {
        let k = choose|k: int| 0 <= k < ls.len() && defines_pr(n)(#[trigger] ls[k]);
        assert(is_pr_def_of(ls[k], n));
    }
    if has_author_def(ls, a) {
        let k = choose|k: int| 0 <= k < ls.len() && is_author_def_of(#[trigger] ls[k], a);
        assert(defines_author(a)(ls[k]));
    }
    if author_def_count(ls, a) > 0 {
        let k = choose|k: int| 0 <= k < ls.len() && defines_author(a)(#[trigger] ls[k]);
        assert(is_author_def_of(ls[k], a));
    }
}

/// Adding the missing pull-request definitions defines each requested number that had no
/// definition by one line, and leaves every other count as it was.
proof fn lemma_add_prs_counts(ls: Seq<Seq<char>>, repo: Seq<char>, prs: Seq<u64>)
    ensures
        forall|n: u64|
            #[trigger] pr_def_count(add_prs(ls, repo, prs), n) == if prs.contains(n) && pr_def_count(ls, n)
                == 0 {
                1nat
            } else {
                pr_def_count(ls, n)
            },
        forall|a: Seq<char>| #[trigger] author_def_count(add_prs(ls, repo, prs), a) == author_def_count(ls, a),
    decreases prs.len(),
{
    if prs.len() > 0 {
        let m = prs[0];
        let rest = prs.drop_first();
        lemma_has_def_count(ls, m, seq![]);
        let next = if has_pr_def(ls, m) {
            ls
        } else {
            insert_pr_def(ls, m, pr_def_line(repo, m))
        };
        lemma_add_prs_counts(next, repo, rest);
        let out = add_prs(ls, repo, prs);
        assert(out == add_prs(next, repo, rest));
        lemma_blank_no_label();
        lemma_blank_no_author();
        lemma_pr_def_line_label(repo, m);
        lemma_pr_def_line_is_def(repo, m);
        lemma_pr_def_line_no_author(repo, m);
        assert forall|n: u64| #[trigger] pr_def_count(add_prs(ls, repo, prs), n) == if prs.contains(n)
            && pr_def_count(ls, n) == 0 {
            1nat
        } else {
            pr_def_count(ls, n)
        } by {
            assert(!defines_pr(n)(Seq::<char>::empty()));
            if !has_pr_def(ls, m) {
                lemma_insert_pr_def_counts(ls, repo, m, defines_pr(n));
                assert(defines_pr(n)(pr_def_line(repo, m)) == (n == m));
            }
            assert(pr_def_count(next, n) == pr_def_count(ls, n) + if n == m && pr_def_count(ls, m) == 0 {
                1nat
            } else {
                0nat
            });
            assert(prs.contains(n) == (n == m || rest.contains(n))) by {
                if prs.contains(n) && n != m {
                    let k = choose|k: int| 0 <= k < prs.len() && prs[k] == n;
                    assert(rest[k - 1] == n);
                }
                if rest.contains(n) {
                    let k = choose|k: int| 0 <= k < rest.len() && rest[k] == n;
                    assert(prs[k + 1] == n);
                }
            }
        }
        assert forall|a: Seq<char>| #[trigger] author_def_count(add_prs(ls, repo, prs), a)
            == author_def_count(ls, a) by {
            assert(author_def_count(out, a) == author_def_count(next, a));
            if !has_pr_def(ls, m) {
                assert(!defines_author(a)(Seq::<char>::empty()));
                lemma_insert_pr_def_counts(ls, repo, m, defines_author(a));
                assert(!defines_author(a)(pr_def_line(repo, m)));
            }
        }
    }
}

/// Adding the missing author definitions defines each requested author that had no definition
/// by one line, and leaves every other count as it was.
proof fn lemma_add_authors_counts(ls: Seq<Seq<char>>, authors: Seq<Seq<char>>)
    requires
        forall|i: int| 0 <= i < authors.len() ==> !text::has_char(#[trigger] authors[i], ']'),
    ensures
        forall|a: Seq<char>|
            #[trigger] author_def_count(add_authors(ls, authors), a) == if authors.contains(a)
                && author_def_count(ls, a) == 0 {
                1nat
            } else {
                author_def_count(ls, a)
            },
        forall|n: u64| #[trigger] pr_def_count(add_authors(ls, authors), n) == pr_def_count(ls, n),
    decreases authors.len(),
{
    if authors.len() > 0 {
        let b = authors[0];
        let rest = authors.drop_first();
        lemma_has_def_count(ls, 0, b);
        let next = if has_author_def(ls, b) {
            ls
        } else {
            insert_author_def(ls, b, author_def_line(b))
        };
        assert forall|i: int| 0 <= i < rest.len() implies !text::has_char(#[trigger] rest[i], ']') by {
            assert(rest[i] == authors[i + 1]);
        }
        lemma_add_authors_counts(next, rest);
        let out = add_authors(ls, authors);
        assert(out == add_authors(next, rest));
        lemma_blank_no_label();
        lemma_blank_no_author();
        assert(!text::has_char(authors[0], ']'));
        lemma_author_def_line_label(b);
        lemma_author_def_line_is_def(b);
        assert forall|a: Seq<char>| #[trigger] author_def_count(add_authors(ls, authors), a) == if authors.contains(
            a,
        ) && author_def_count(ls, a) == 0 {
            1nat
        } else {
            author_def_count(ls, a)
        } by {
            assert(!defines_author(a)(Seq::<char>::empty()));
            if !has_author_def(ls, b) {
                lemma_insert_author_def_counts(ls, b, defines_author(a));
                assert(defines_author(a)(author_def_line(b)) == (a == b));
            }
            assert(author_def_count(next, a) == author_def_count(ls, a) + if a == b && author_def_count(
                ls,
                b,
            ) == 0 {
                1nat
            } else {
                0nat
            });
            assert(authors.contains(a) == (a == b || rest.contains(a))) by {
                if authors.contains(a) && a != b {
                    let k = choose|k: int| 0 <= k < authors.len() && authors[k] == a;
                    assert(rest[k - 1] == a);
                }
                if rest.contains(a) {
                    let k = choose|k: int| 0 <= k < rest.len() && rest[k] == a;
                    assert(authors[k + 1] == a);
                }
            }
        }
        assert forall|n: u64| #[trigger] pr_def_count(add_authors(ls, authors), n) == pr_def_count(ls, n) by {
            assert(pr_def_count(out, n) == pr_def_count(next, n));
            if !has_author_def(ls, b) {
                assert(!defines_pr(n)(Seq::<char>::empty()));
                lemma_insert_author_def_counts(ls, b, defines_pr(n));
                assert(!defines_pr(n)(author_def_line(b)));
            }
        }
    }
}

/// Updating the definitions adds no second definition of any label: a requested label that
/// had no definition line is then defined by exactly one line, and every other label is
/// defined by as many lines as before (a number or login requested twice is defined once).
pub proof fn lemma_update_no_duplicates(
    ls: Seq<Seq<char>>,
    repo: Seq<char>,
    prs: Seq<u64>,
    authors: Seq<Seq<char>>,
)
    requires
        forall|i: int| 0 <= i < authors.len() ==> !text::has_char(#[trigger] authors[i], ']'),
    ensures
        forall|n: u64|
            #[trigger] pr_def_count(update_lines(ls, repo, prs, authors), n) == if prs.contains(n)
                && !has_pr_def(ls, n) {
                1nat
            } else {
                pr_def_count(ls, n)
            },
        forall|a: Seq<char>|
            #[trigger] author_def_count(update_lines(ls, repo, prs, authors), a) == if authors.contains(
                a,
            ) && !has_author_def(ls, a) {
                1nat
            } else {
                author_def_count(ls, a)
            },
{
    let mid = add_authors(ls, authors);
    lemma_add_authors_counts(ls, authors);
    lemma_add_prs_counts(mid, repo, prs);
    assert forall|n: u64| #[trigger] pr_def_count(update_lines(ls, repo, prs, authors), n) == if prs.contains(n)
        && !has_pr_def(ls, n) {
        1nat
    } else {
        pr_def_count(ls, n)
    } by {
        lemma_has_def_count(ls, n, seq![]);
        assert(pr_def_count(mid, n) == pr_def_count(ls, n));
    }
    assert forall|a: Seq<char>| #[trigger] author_def_count(update_lines(ls, repo, prs, authors), a)
        == if authors.contains(a) && !has_author_def(ls, a) {
        1nat
    } else {
        author_def_count(ls, a)
    } by {
        lemma_has_def_count(ls, 0, a);
        assert(author_def_count(update_lines(ls, repo, prs, authors), a) == author_def_count(mid, a));
    }
}

// ---------------------------------------------------------------------------------------------
// Pull-request definitions stay in ascending order.
// ---------------------------------------------------------------------------------------------

/// Whether a line belongs to a definition block: blank, or a reference definition.
pub open spec fn block_line(l: Seq<char>) -> bool {
    text::is_blank(l) || merge::is_ref_def_line(l)
}

/// Whether the `[#N]` definitions from line `lo` on are in ascending order of `N`.
pub open spec fn pr_defs_ascending(ls: Seq<Seq<char>>, lo: int) -> bool {
    forall|i: int, j: int|
        lo <= i < j < ls.len() ==> match (pr_label_num(#[trigger] ls[i]), pr_label_num(#[trigger] ls[j])) {
            (Some(a), Some(b)) => a <= b,
            _ => true,
        }
}

/// The block ending at `k` starts at `b` when every line of `b..k` belongs to a block and the
/// line before `b` does not.
proof fn lemma_block_start_is(ls: Seq<Seq<char>>, k: int, b: int)
    requires
        0 <= b <= k <= ls.len(),
        forall|m: int| b <= m < k ==> block_line(#[trigger] ls[m]),
        b > 0 ==> !block_line(ls[b - 1]),
    ensures
        block_start_below(ls, k) == b,
    decreases k,
{
    if k > b {
        lemma_block_start_is(ls, k - 1, b);
    }
}

/// The lines of the block ending at `k` all belong to a block, and the one before does not.
proof fn lemma_block_start_shape(ls: Seq<Seq<char>>, k: int)
    requires
        0 <= k <= ls.len(),
    ensures
        forall|m: int| block_start_below(ls, k) <= m < k ==> block_line(#[trigger] ls[m]),
        block_start_below(ls, k) > 0 ==> !block_line(ls[block_start_below(ls, k) - 1]),
    decreases k,
{
    lemma_block_start_below(ls, k);
    if k > 0 && block_line(ls[k - 1]) {
        lemma_block_start_shape(ls, k - 1);
    }
}

/// A pull-request definition line is a reference definition.
proof fn lemma_pr_def_line_is_def(repo: Seq<char>, n: u64)
    ensures
        merge::is_ref_def_line(pr_def_line(repo, n)),
{
    reveal_strlit("[#");
    reveal_strlit("]: https://github.com/");
    reveal_strlit("/pull/");
    reveal_strlit("[");
    reveal_strlit("]");
    reveal_strlit(":");
    let d = numbers::decimal(n as nat);
    numbers::lemma_decimal(n as nat);
    let label = seq!['#'] + d;
    let tail = "]: https://github.com/"@ + repo + "/pull/"@ + d;
    assert(!text::has_char(label, ']')) by {
        assert forall|k: int| 0 <= k < label.len() implies label[k] != ']' by {
            if k > 0 {
                assert(label[k] == d[k - 1]);
                assert(numbers::is_digit(d[k - 1]));
            }
        }
    }
    let line = pr_def_line(repo, n);
    assert(line =~= seq!['['] + label + tail);
    assert(!text::is_white('['));
    assert(text::trim_start(line) == line);
    assert(line.take(1) =~= "["@);
    let rest = line.skip(1);
    assert(rest =~= label + tail);
    assert("]"@ =~= seq![']']);
    text::lemma_find_char(rest, ']');
    assert(rest[label.len() as int] == ']');
    let i = text::find(rest, seq![']'])->0;
    if i < label.len() {
        assert(rest[i] == label[i]);
    }
    assert(i == label.len());
    assert(rest.skip(i + 1).take(1) =~= ":"@);
}

/// What [`first_pr_greater_from`] finds: the first `[#N]` definition with `N > n`.
proof fn lemma_first_pr_greater_first(ls: Seq<Seq<char>>, n: u64, i: int)
    requires
        0 <= i,
    ensures
        first_pr_greater_from(ls, n, i) matches Some(k) ==> (pr_label_num(ls[k]) matches Some(e) && e > n)
            && forall|m: int| i <= m < k ==> !(pr_label_num(#[trigger] ls[m]) matches Some(e) && e > n),
        first_pr_greater_from(ls, n, i) is None ==> forall|m: int|
            i <= m < ls.len() ==> !(pr_label_num(#[trigger] ls[m]) matches Some(e) && e > n),
    decreases ls.len() - i,
{
    if i < ls.len() && !(pr_label_num(ls[i]) matches Some(e) && e > n) {
        lemma_first_pr_greater_first(ls, n, i + 1);
    }
}

/// What [`last_pr_def`] finds: the last `[#N]` definition in `lo..k`.
proof fn lemma_last_pr_def_last(ls: Seq<Seq<char>>, lo: int, k: int)
    requires
        0 <= lo <= k <= ls.len(),
    ensures
        last_pr_def(ls, lo, k) matches Some(j) ==> forall|m: int|
            j < m < k ==> pr_label_num(#[trigger] ls[m]) is None,
        last_pr_def(ls, lo, k) is None ==> forall|m: int| lo <= m < k ==> pr_label_num(#[trigger] ls[m]) is None,
    decreases k - lo,
{
    if k > lo && pr_label_num(ls[k - 1]) is None {
        lemma_last_pr_def_last(ls, lo, k - 1);
    }
}

/// A blank line defines nothing.
proof fn lemma_blank_no_label()
    ensures
        pr_label_num(Seq::<char>::empty()) is None,
        text::is_blank(Seq::<char>::empty()),
{
    reveal_strlit("[");
    assert(text::trim_start(Seq::<char>::empty()) == Seq::<char>::empty());
    assert(!text::starts_with(Seq::<char>::empty(), "["@));
    assert(text::trim(Seq::<char>::empty()) == Seq::<char>::empty());
}

/// A new group started at the end holds the block's only `[#N]` definition.
proof fn lemma_new_group_ascending(ls: Seq<Seq<char>>, line: Seq<char>)
    requires
        block_line(line),
        forall|m: int| trailing_block_start(ls) <= m < ls.len() ==> pr_label_num(#[trigger] ls[m]) is None,
    ensures
        ({
            let out = append_new_group(ls, line);
            pr_defs_ascending(out, trailing_block_start(out))
        }),
{
    let bs = trailing_block_start(ls);
    let out = append_new_group(ls, line);
    lemma_block_start_below(ls, ls.len() as int);
    lemma_block_start_shape(ls, ls.len() as int);
    lemma_blank_no_label();
    let nb = if ls.len() > 0 && !text::is_blank(ls.last()) && !block_line(ls.last()) {
        ls.len() as int
    } else {
        bs
    };
    assert forall|m: int| nb <= m < out.len() implies block_line(#[trigger] out[m]) by {
        if m < ls.len() {
            assert(out[m] == ls[m]);
        }
    }
    if nb > 0 {
        assert(out[nb - 1] == ls[nb - 1]);
    }
    lemma_block_start_is(out, out.len() as int, nb);
    assert forall|i: int, j: int| nb <= i < j < out.len() implies match (
        pr_label_num(#[trigger] out[i]),
        pr_label_num(#[trigger] out[j]),
    ) {
        (Some(a), Some(b)) => a <= b,
        _ => true,
    } by {
        if i < ls.len() {
            assert(out[i] == ls[i]);
        } else {
            assert(out[i] == Seq::<char>::empty());
        }
    }
}

/// Inserting a `[#n]` definition after the block's definitions up to `n` and before those
/// above it keeps them in ascending order.
#[verifier::spinoff_prover]
proof fn lemma_insert_at_ascending(ls: Seq<Seq<char>>, at: int, line: Seq<char>, n: u64)
    requires
        trailing_block_start(ls) <= at <= ls.len(),
        block_line(line),
        pr_label_num(line) == Some(n),
        pr_defs_ascending(ls, trailing_block_start(ls)),
        forall|m: int|
            trailing_block_start(ls) <= m < at ==> !(pr_label_num(#[trigger] ls[m]) matches Some(e) && e > n),
        forall|m: int| at <= m < ls.len() ==> (pr_label_num(#[trigger] ls[m]) matches Some(e) ==> e > n),
    ensures
        ({
            let out = ls.insert(at, line);
            pr_defs_ascending(out, trailing_block_start(out))
        }),
{
    let bs = trailing_block_start(ls);
    let out = ls.insert(at, line);
    lemma_block_start_below(ls, ls.len() as int);
    lemma_block_start_shape(ls, ls.len() as int);
    assert forall|m: int| bs <= m < out.len() implies block_line(#[trigger] out[m]) by {
        if m < at {
            assert(out[m] == ls[m]);
        } else if m > at {
            assert(out[m] == ls[m - 1]);
        }
    }
    if bs > 0 {
        assert(out[bs - 1] == ls[bs - 1]);
    }
    lemma_block_start_is(out, out.len() as int, bs);
    assert forall|i: int, j: int| bs <= i < j < out.len() implies match (
        pr_label_num(#[trigger] out[i]),
        pr_label_num(#[trigger] out[j]),
    ) {
        (Some(a), Some(b)) => a <= b,
        _ => true,
    } by {
        if i == at {
            assert(out[j] == ls[j - 1]);
        } else if j == at {
            assert(out[i] == ls[i]);
        } else {
            let ii = if i < at { i } else { i - 1 };
            let jj = if j < at { j } else { j - 1 };
            assert(out[i] == ls[ii] && out[j] == ls[jj]);
        }
    }
}

/// Inserting a `[#N]` definition keeps the trailing block's `[#N]` definitions in ascending
/// order.
pub proof fn lemma_insert_pr_def_ascending(ls: Seq<Seq<char>>, repo: Seq<char>, n: u64)
    requires
        pr_defs_ascending(ls, trailing_block_start(ls)),
    ensures
        ({
            let out = insert_pr_def(ls, n, pr_def_line(repo, n));
            pr_defs_ascending(out, trailing_block_start(out))
        }),
{
    let line = pr_def_line(repo, n);
    let bs = trailing_block_start(ls);
    lemma_block_start_below(ls, ls.len() as int);
    lemma_last_pr_def(ls, bs, ls.len() as int);
    lemma_last_pr_def_last(ls, bs, ls.len() as int);
    lemma_first_pr_greater_from(ls, n, bs);
    lemma_first_pr_greater_first(ls, n, bs);
    lemma_pr_def_line_is_def(repo, n);
    lemma_pr_def_line_label(repo, n);
    match last_pr_def(ls, bs, ls.len() as int) {
        None => {
            lemma_new_group_ascending(ls, line);
        },
        Some(last) => {
            match first_pr_greater_from(ls, n, bs) {
                Some(k) => {
                    assert forall|m: int| k <= m < ls.len() implies (pr_label_num(#[trigger] ls[m]) matches Some(e) ==> e > n) by {
                        if m > k {
                            assert(match (pr_label_num(ls[k]), pr_label_num(ls[m])) {
                                (Some(a), Some(b)) => a <= b,
                                _ => true,
                            });
                        }
                    }
                    lemma_insert_at_ascending(ls, k, line, n);
                },
                None => {
                    lemma_insert_at_ascending(ls, last + 1, line, n);
                },
            }
        },
    }
}

/// What [`last_pr_def`] finds is a `[#N]` definition.
proof fn lemma_last_pr_def_found(ls: Seq<Seq<char>>, lo: int, k: int)
    ensures
        last_pr_def(ls, lo, k) matches Some(j) ==> pr_label_num(ls[j]) is Some,
    decreases k - lo,
{
    if k > lo && k <= ls.len() && lo >= 0 && pr_label_num(ls[k - 1]) is None {
        lemma_last_pr_def_found(ls, lo, k - 1);
    }
}

/// Inserting a `[#n]` line after the definitions from `lo` up to `n` and before those above it
/// keeps the `[#N]` definitions from `lo` on in ascending order.
proof fn lemma_insert_at_ascending_from(ls: Seq<Seq<char>>, lo: int, at: int, line: Seq<char>, n: u64)
    requires
        0 <= lo <= at <= ls.len(),
        pr_label_num(line) == Some(n),
        pr_defs_ascending(ls, lo),
        forall|m: int| lo <= m < at ==> !(pr_label_num(#[trigger] ls[m]) matches Some(e) && e > n),
        forall|m: int| at <= m < ls.len() ==> (pr_label_num(#[trigger] ls[m]) matches Some(e) ==> e > n),
    ensures
        pr_defs_ascending(ls.insert(at, line), lo),
{
    let out = ls.insert(at, line);
    assert forall|i: int, j: int| lo <= i < j < out.len() implies match (
        pr_label_num(#[trigger] out[i]),
        pr_label_num(#[trigger] out[j]),
    ) {
        (Some(a), Some(b)) => a <= b,
        _ => true,
    } by {
        if i == at {
            assert(out[j] == ls[j - 1]);
        } else if j == at {
            assert(out[i] == ls[i]);
        } else {
            let ii = if i < at { i } else { i - 1 };
            let jj = if j < at { j } else { j - 1 };
            assert(out[i] == ls[ii] && out[j] == ls[jj]);
        }
    }
}

/// Inserting a `[#n]` definition line moves and removes nothing. When the trailing definition
/// block holds `[#m]` definitions, the line goes into it just before the first of them with
/// `m > n`, else just after the last of them; when it holds none, the line starts a new group
/// at the end, after a blank line unless the last line is blank. Either way the `[#m]`
/// definitions from the block's start on, the new one among them, stay in ascending order.
pub proof fn lemma_insert_pr_def_placement(ls: Seq<Seq<char>>, n: u64, new_line: Seq<char>)
    requires
        pr_label_num(new_line) == Some(n),
        pr_defs_ascending(ls, trailing_block_start(ls)),
    ensures
        ({
            let b = trailing_block_start(ls);
            let out = insert_pr_def(ls, n, new_line);
            &&& (forall|m: int| b <= m < ls.len() ==> pr_label_num(#[trigger] ls[m]) is None) ==> out
                == append_new_group(ls, new_line)
            &&& (exists|m: int| b <= m < ls.len() && pr_label_num(#[trigger] ls[m]) is Some) ==> exists|
                at: int,
            |
                b <= at <= ls.len() && out == ls.insert(at, new_line) && (forall|m: int|
                    b <= m < at ==> !(pr_label_num(#[trigger] ls[m]) matches Some(e) && e > n)) && ((
                at < ls.len() && (pr_label_num(ls[at]) matches Some(e) && e > n)) || (b < at
                    && pr_label_num(ls[at - 1]) is Some && forall|m: int|
                    at <= m < ls.len() ==> pr_label_num(#[trigger] ls[m]) is None))
            &&& pr_defs_ascending(out, b)
        }),
{
    let b = trailing_block_start(ls);
    let out = insert_pr_def(ls, n, new_line);
    lemma_block_start_below(ls, ls.len() as int);
    lemma_last_pr_def(ls, b, ls.len() as int);
    lemma_last_pr_def_last(ls, b, ls.len() as int);
    lemma_last_pr_def_found(ls, b, ls.len() as int);
    lemma_first_pr_greater_from(ls, n, b);
    lemma_first_pr_greater_first(ls, n, b);
    match last_pr_def(ls, b, ls.len() as int) {
        None => {
            lemma_blank_no_label();
            assert forall|i: int, j: int| b <= i < j < out.len() implies match (
                pr_label_num(#[trigger] out[i]),
                pr_label_num(#[trigger] out[j]),
            ) {
                (Some(x), Some(y)) => x <= y,
                _ => true,
            } by {
                if i < ls.len() {
                    assert(out[i] == ls[i]);
                } else {
                    assert(out[i] == Seq::<char>::empty());
                }
            }
        },
        Some(last) => {
            let at = match first_pr_greater_from(ls, n, b) {
                Some(k) => k,
                None => last + 1,
            };
            if let Some(k) = first_pr_greater_from(ls, n, b) {
                assert forall|m: int| k <= m < ls.len() implies (pr_label_num(#[trigger] ls[m]) matches Some(e) ==> e > n) by {
                    if m > k {
                        assert(match (pr_label_num(ls[k]), pr_label_num(ls[m])) {
                            (Some(x), Some(y)) => x <= y,
                            _ => true,
                        });
                    }
                }
            }
            lemma_insert_at_ascending_from(ls, b, at, new_line, n);
            assert(out == ls.insert(at, new_line));
        },
    }
}

/// An author definition line is a reference definition that defines no pull request.
proof fn lemma_author_def_line_is_def(a: Seq<char>)
    requires
        !text::has_char(a, ']'),
    ensures
        merge::is_ref_def_line(author_def_line(a)),
        pr_label_num(author_def_line(a)) is None,
{
    reveal_strlit("[@");
    reveal_strlit("]: https://github.com/");
    reveal_strlit("[");
    reveal_strlit("]");
    reveal_strlit(":");
    reveal_strlit("#");
    let label = seq!['@'] + a;
    let tail = "]: https://github.com/"@ + a;
    assert(!text::has_char(label, ']')) by {
        assert forall|k: int| 0 <= k < label.len() implies label[k] != ']' by {
            if k > 0 {
                assert(label[k] == a[k - 1]);
            }
        }
    }
    let line = author_def_line(a);
    assert(line =~= seq!['['] + label + tail);
    lemma_def_label_of(label, tail);
    assert(!text::is_white('['));
    assert(text::trim_start(line) == line);
    assert(line.take(1) =~= "["@);
    let rest = line.skip(1);
    assert(rest =~= label + tail);
    assert("]"@ =~= seq![']']);
    text::lemma_find_char(rest, ']');
    assert(rest[label.len() as int] == ']');
    let i = text::find(rest, seq![']'])->0;
    if i < label.len() {
        assert(rest[i] == label[i]);
    }
    assert(i == label.len());
    assert(rest.skip(i + 1).take(1) =~= ":"@);
    assert(!text::starts_with(label, "#"@)) by {
        assert(label[0] == '@');
        assert("#"@[0] == '#');
    }
}

/// Inserting a block line that defines no pull request inside the trailing block leaves the
/// block's start and its `[#N]` order as they were.
proof fn lemma_insert_plain_in_block(ls: Seq<Seq<char>>, at: int, line: Seq<char>)
    requires
        trailing_block_start(ls) <= at <= ls.len(),
        block_line(line),
        pr_label_num(line) is None,
    ensures
        trailing_block_start(ls.insert(at, line)) == trailing_block_start(ls),
        pr_defs_ascending(ls, trailing_block_start(ls)) ==> pr_defs_ascending(
            ls.insert(at, line),
            trailing_block_start(ls),
        ),
{
    let bs = trailing_block_start(ls);
    let out = ls.insert(at, line);
    lemma_block_start_below(ls, ls.len() as int);
    lemma_block_start_shape(ls, ls.len() as int);
    assert forall|m: int| bs <= m < out.len() implies block_line(#[trigger] out[m]) by {
        if m < at {
            assert(out[m] == ls[m]);
        } else if m > at {
            assert(out[m] == ls[m - 1]);
        }
    }
    if bs > 0 {
        assert(out[bs - 1] == ls[bs - 1]);
    }
    lemma_block_start_is(out, out.len() as int, bs);
    if pr_defs_ascending(ls, bs) {
        assert forall|i: int, j: int| bs <= i < j < out.len() implies match (
            pr_label_num(#[trigger] out[i]),
            pr_label_num(#[trigger] out[j]),
        ) {
            (Some(x), Some(y)) => x <= y,
            _ => true,
        } by {
            if i != at && j != at {
                let ii = if i < at { i } else { i - 1 };
                let jj = if j < at { j } else { j - 1 };
                assert(out[i] == ls[ii] && out[j] == ls[jj]);
            }
        }
    }
}

/// Inserting an author definition leaves the trailing block's `[#N]` order as it was.
proof fn lemma_insert_author_def_pr_order(ls: Seq<Seq<char>>, a: Seq<char>)
    requires
        !text::has_char(a, ']'),
        pr_defs_ascending(ls, trailing_block_start(ls)),
    ensures
        ({
            let out = insert_author_def(ls, a, author_def_line(a));
            pr_defs_ascending(out, trailing_block_start(out))
        }),
{
    let line = author_def_line(a);
    let bs = trailing_block_start(ls);
    lemma_block_start_below(ls, ls.len() as int);
    lemma_last_author_def(ls, bs, ls.len() as int);
    lemma_first_author_greater_from(ls, a, bs);
    lemma_first_pr_def_from(ls, bs);
    lemma_author_def_line_is_def(a);
    lemma_blank_no_label();
    match last_author_def(ls, bs, ls.len() as int) {
        None => match first_pr_def_from(ls, bs) {
            Some(fp) => {
                lemma_insert_plain_in_block(ls, fp, seq![]);
                lemma_insert_plain_in_block(ls.insert(fp, seq![]), fp, line);
            },
            None => {
                let base = if ls.len() > 0 && !text::is_blank(ls.last()) {
                    ls.push(seq![])
                } else {
                    ls
                };
                if ls.len() > 0 && !text::is_blank(ls.last()) {
                    assert(ls.push(seq![]) =~= ls.insert(ls.len() as int, seq![]));
                    lemma_insert_plain_in_block(ls, ls.len() as int, seq![]);
                }
                assert(base.push(line) =~= base.insert(base.len() as int, line));
                lemma_insert_plain_in_block(base, base.len() as int, line);
            },
        },
        Some(last) => {
            let at = match first_author_greater_from(ls, a, bs) {
                Some(i) => i,
                None => last + 1,
            };
            lemma_insert_plain_in_block(ls, at, line);
        },
    }
}

/// Adding author definitions leaves the trailing block's `[#N]` order as it was.
proof fn lemma_add_authors_pr_order(ls: Seq<Seq<char>>, authors: Seq<Seq<char>>)
    requires
        forall|i: int| 0 <= i < authors.len() ==> !text::has_char(#[trigger] authors[i], ']'),
        pr_defs_ascending(ls, trailing_block_start(ls)),
    ensures
        ({
            let out = add_authors(ls, authors);
            pr_defs_ascending(out, trailing_block_start(out))
        }),
    decreases authors.len(),
{
    if authors.len() > 0 {
        let a = authors[0];
        if !has_author_def(ls, a) {
            lemma_insert_author_def_pr_order(ls, a);
        }
        assert forall|i: int| 0 <= i < authors.drop_first().len() implies !text::has_char(
            #[trigger] authors.drop_first()[i],
            ']',
        ) by {
            assert(authors.drop_first()[i] == authors[i + 1]);
        }
        let next = if has_author_def(ls, a) {
            ls
        } else {
            insert_author_def(ls, a, author_def_line(a))
        };
        lemma_add_authors_pr_order(next, authors.drop_first());
    }
}

/// Adding pull-request definitions keeps the trailing block's `[#N]` order.
proof fn lemma_add_prs_pr_order(ls: Seq<Seq<char>>, repo: Seq<char>, prs: Seq<u64>)
    requires
        pr_defs_ascending(ls, trailing_block_start(ls)),
    ensures
        ({
            let out = add_prs(ls, repo, prs);
            pr_defs_ascending(out, trailing_block_start(out))
        }),
    decreases prs.len(),
{
    if prs.len() > 0 {
        let n = prs[0];
        if !has_pr_def(ls, n) {
            lemma_insert_pr_def_ascending(ls, repo, n);
        }
        let next = if has_pr_def(ls, n) {
            ls
        } else {
            insert_pr_def(ls, n, pr_def_line(repo, n))
        };
        lemma_add_prs_pr_order(next, repo, prs.drop_first());
    }
}

/// When the trailing block's `[#N]` definitions are in ascending order, they still are after
/// the definitions are updated (for logins that hold no `]`).
pub proof fn lemma_update_keeps_pr_order(
    ls: Seq<Seq<char>>,
    repo: Seq<char>,
    prs: Seq<u64>,
    authors: Seq<Seq<char>>,
)
    requires
        forall|i: int| 0 <= i < authors.len() ==> !text::has_char(#[trigger] authors[i], ']'),
        pr_defs_ascending(ls, trailing_block_start(ls)),
    ensures
        ({
            let out = update_lines(ls, repo, prs, authors);
            pr_defs_ascending(out, trailing_block_start(out))
        }),
{
    lemma_add_authors_pr_order(ls, authors);
    lemma_add_prs_pr_order(add_authors(ls, authors), repo, prs);
}

// ---------------------------------------------------------------------------------------------
// Author definitions stay in alphabetical order.
// ---------------------------------------------------------------------------------------------

/// Whether the `[@login]` definitions from line `lo` on are in alphabetical order.
pub open spec fn author_defs_ascending(ls: Seq<Seq<char>>, lo: int) -> bool {
    forall|i: int, j: int|
        lo <= i < j < ls.len() ==> match (author_label(#[trigger] ls[i]), author_label(#[trigger] ls[j])) {
            (Some(x), Some(y)) => !text::lex_lt(y, x),
            _ => true,
        }
}

/// A pull-request definition line defines no author.
proof fn lemma_pr_def_line_no_author(repo: Seq<char>, n: u64)
    ensures
        author_label(pr_def_line(repo, n)) is None,
{
    reveal_strlit("@");
    reveal_strlit("#");
    lemma_pr_def_line_label(repo, n);
    let l = def_label(pr_def_line(repo, n))->0;
    assert(text::starts_with(l, "#"@));
    assert(l.take(1) =~= "#"@);
    assert(l.take(1)[0] == l[0]);
    assert(l[0] == '#');
    assert(!text::starts_with(l, "@"@)) by {
        assert("@"@[0] == '@');
    }
}

/// A blank line defines no author.
proof fn lemma_blank_no_author()
    ensures
        author_label(Seq::<char>::empty()) is None,
{
    reveal_strlit("[");
    assert(text::trim_start(Seq::<char>::empty()) == Seq::<char>::empty());
    assert(!text::starts_with(Seq::<char>::empty(), "["@));
}

/// Inserting a block line that defines no author inside the trailing block keeps the
/// block's `[@login]` order.
proof fn lemma_insert_nonauthor_in_block(ls: Seq<Seq<char>>, at: int, line: Seq<char>)
    requires
        trailing_block_start(ls) <= at <= ls.len(),
        block_line(line),
        author_label(line) is None,
        author_defs_ascending(ls, trailing_block_start(ls)),
    ensures
        trailing_block_start(ls.insert(at, line)) == trailing_block_start(ls),
        author_defs_ascending(ls.insert(at, line), trailing_block_start(ls)),
{
    let bs = trailing_block_start(ls);
    let out = ls.insert(at, line);
    lemma_block_start_below(ls, ls.len() as int);
    lemma_block_start_shape(ls, ls.len() as int);
    assert forall|m: int| bs <= m < out.len() implies block_line(#[trigger] out[m]) by {
        if m < at {
            assert(out[m] == ls[m]);
        } else if m > at {
            assert(out[m] == ls[m - 1]);
        }
    }
    if bs > 0 {
        assert(out[bs - 1] == ls[bs - 1]);
    }
    lemma_block_start_is(out, out.len() as int, bs);
    assert forall|i: int, j: int| bs <= i < j < out.len() implies match (
        author_label(#[trigger] out[i]),
        author_label(#[trigger] out[j]),
    ) {
        (Some(x), Some(y)) => !text::lex_lt(y, x),
        _ => true,
    } by {
        if i != at && j != at {
            let ii = if i < at { i } else { i - 1 };
            let jj = if j < at { j } else { j - 1 };
            assert(out[i] == ls[ii] && out[j] == ls[jj]);
        }
    }
}

/// What [`first_author_greater_from`] finds: the first `[@login]` definition after `login`.
proof fn lemma_first_author_greater_first(ls: Seq<Seq<char>>, login: Seq<char>, i: int)
    requires
        0 <= i,
    ensures
        first_author_greater_from(ls, login, i) matches Some(k) ==> (author_label(ls[k]) matches Some(
            e,
        ) && text::lex_lt(login, e)) && forall|m: int|
            i <= m < k ==> !(author_label(#[trigger] ls[m]) matches Some(e) && text::lex_lt(login, e)),
        first_author_greater_from(ls, login, i) is None ==> forall|m: int|
            i <= m < ls.len() ==> !(author_label(#[trigger] ls[m]) matches Some(e) && text::lex_lt(
                login,
                e,
            )),
    decreases ls.len() - i,
{
    if i < ls.len() && !(author_label(ls[i]) matches Some(e) && text::lex_lt(login, e)) {
        lemma_first_author_greater_first(ls, login, i + 1);
    }
}

/// What [`last_author_def`] finds: the last `[@login]` definition in `lo..k`.
proof fn lemma_last_author_def_last(ls: Seq<Seq<char>>, lo: int, k: int)
    requires
        0 <= lo <= k <= ls.len(),
    ensures
        last_author_def(ls, lo, k) matches Some(j) ==> forall|m: int|
            j < m < k ==> author_label(#[trigger] ls[m]) is None,
        last_author_def(ls, lo, k) is None ==> forall|m: int|
            lo <= m < k ==> author_label(#[trigger] ls[m]) is None,
    decreases k - lo,
{
    if k > lo && author_label(ls[k - 1]) is None {
        lemma_last_author_def_last(ls, lo, k - 1);
    }
}

/// What [`last_author_def`] finds is an `[@login]` definition.
proof fn lemma_last_author_def_found(ls: Seq<Seq<char>>, lo: int, k: int)
    ensures
        last_author_def(ls, lo, k) matches Some(j) ==> author_label(ls[j]) is Some,
    decreases k - lo,
{
    if k > lo && k <= ls.len() && lo >= 0 && author_label(ls[k - 1]) is None {
        lemma_last_author_def_found(ls, lo, k - 1);
    }
}

/// What [`first_pr_def_from`] finds: the first `[#N]` definition from `i`.
proof fn lemma_first_pr_def_first(ls: Seq<Seq<char>>, i: int)
    requires
        0 <= i,
    ensures
        first_pr_def_from(ls, i) matches Some(k) ==> forall|m: int| i <= m < k ==> pr_label_num(#[trigger] ls[m]) is None,
        first_pr_def_from(ls, i) is None ==> forall|m: int| i <= m < ls.len() ==> pr_label_num(#[trigger] ls[m]) is None,
    decreases ls.len() - i,
{
    if i < ls.len() && pr_label_num(ls[i]) is None {
        lemma_first_pr_def_first(ls, i + 1);
    }
}

/// Inserting an `[@login]` definition line moves and removes nothing. When the trailing
/// definition block holds `[@login]` definitions, the line goes into it just before the first of
/// them whose login sorts after the new one, else just after the last of them. When it holds
/// none, the line starts a group of its own just before the block's first `[#N]` definition,
/// followed by a blank line, or, with no `[#N]` definition there either, at the end.
pub proof fn lemma_insert_author_def_placement(ls: Seq<Seq<char>>, login: Seq<char>, new_line: Seq<char>)
    ensures
        ({
            let b = trailing_block_start(ls);
            let out = insert_author_def(ls, login, new_line);
            &&& (exists|m: int| b <= m < ls.len() && author_label(#[trigger] ls[m]) is Some) ==> exists|
                at: int,
            |
                b <= at <= ls.len() && out == ls.insert(at, new_line) && (forall|m: int|
                    b <= m < at ==> !(author_label(#[trigger] ls[m]) matches Some(e) && text::lex_lt(
                        login,
                        e,
                    ))) && ((at < ls.len() && (author_label(ls[at]) matches Some(e) && text::lex_lt(
                    login,
                    e,
                ))) || (b < at && author_label(ls[at - 1]) is Some && forall|m: int|
                    at <= m < ls.len() ==> author_label(#[trigger] ls[m]) is None))
            &&& (forall|m: int| b <= m < ls.len() ==> author_label(#[trigger] ls[m]) is None) ==> ((
            exists|fp: int|
                b <= fp < ls.len() && pr_label_num(ls[fp]) is Some && (forall|m: int|
                    b <= m < fp ==> pr_label_num(#[trigger] ls[m]) is None) && out == ls.insert(
                    fp,
                    seq![],
                ).insert(fp, new_line)) || ((forall|m: int|
                b <= m < ls.len() ==> pr_label_num(#[trigger] ls[m]) is None) && out
                == append_new_group(ls, new_line)))
        }),
{
    let b = trailing_block_start(ls);
    let out = insert_author_def(ls, login, new_line);
    lemma_block_start_below(ls, ls.len() as int);
    lemma_last_author_def(ls, b, ls.len() as int);
    lemma_last_author_def_last(ls, b, ls.len() as int);
    lemma_last_author_def_found(ls, b, ls.len() as int);
    lemma_first_author_greater_from(ls, login, b);
    lemma_first_author_greater_first(ls, login, b);
    lemma_first_pr_def_from(ls, b);
    lemma_first_pr_def_first(ls, b);
    match last_author_def(ls, b, ls.len() as int) {
        None => {
            match first_pr_def_from(ls, b) {
                Some(fp) => {
                    assert(pr_label_num(ls[fp]) is Some);
                },
                None => {},
            }
        },
        Some(last) => {
            let at = match first_author_greater_from(ls, login, b) {
                Some(i) => i,
                None => last + 1,
            };
            assert(out == ls.insert(at, new_line));
        },
    }
}

/// Inserting an author definition among the block's definitions up to its login and before
/// those after it keeps them in alphabetical order.
proof fn lemma_insert_author_at(ls: Seq<Seq<char>>, at: int, line: Seq<char>, a: Seq<char>)
    requires
        trailing_block_start(ls) <= at <= ls.len(),
        block_line(line),
        author_label(line) == Some(a),
        author_defs_ascending(ls, trailing_block_start(ls)),
        forall|m: int|
            trailing_block_start(ls) <= m < at ==> (author_label(#[trigger] ls[m]) matches Some(e)
                ==> !text::lex_lt(a, e)),
        forall|m: int| at <= m < ls.len() ==> (author_label(#[trigger] ls[m]) matches Some(e) ==> text::lex_lt(a, e)),
    ensures
        ({
            let out = ls.insert(at, line);
            author_defs_ascending(out, trailing_block_start(out))
        }),
{
    let bs = trailing_block_start(ls);
    let out = ls.insert(at, line);
    lemma_block_start_below(ls, ls.len() as int);
    lemma_block_start_shape(ls, ls.len() as int);
    assert forall|m: int| bs <= m < out.len() implies block_line(#[trigger] out[m]) by {
        if m < at {
            assert(out[m] == ls[m]);
        } else if m > at {
            assert(out[m] == ls[m - 1]);
        }
    }
    if bs > 0 {
        assert(out[bs - 1] == ls[bs - 1]);
    }
    lemma_block_start_is(out, out.len() as int, bs);
    assert forall|i: int, j: int| bs <= i < j < out.len() implies match (
        author_label(#[trigger] out[i]),
        author_label(#[trigger] out[j]),
    ) {
        (Some(x), Some(y)) => !text::lex_lt(y, x),
        _ => true,
    } by {
        if i == at {
            assert(out[j] == ls[j - 1]);
            if let Some(y) = author_label(ls[j - 1]) {
                text::lemma_lex_lt_order(a, y, a);
            }
        } else if j == at {
            assert(out[i] == ls[i]);
        } else {
            let ii = if i < at { i } else { i - 1 };
            let jj = if j < at { j } else { j - 1 };
            assert(out[i] == ls[ii] && out[j] == ls[jj]);
        }
    }
}

/// A block with one `[@login]` definition has them in order.
proof fn lemma_single_author_ascending(out: Seq<Seq<char>>, lo: int, k: int)
    requires
        forall|m: int| lo <= m < out.len() && m != k ==> author_label(#[trigger] out[m]) is None,
    ensures
        author_defs_ascending(out, lo),
{
}

/// When the trailing block has no `[@login]` definition, the inserted one is its only one.
proof fn lemma_author_new_group(ls: Seq<Seq<char>>, a: Seq<char>)
    requires
        !text::has_char(a, ']'),
        last_author_def(ls, trailing_block_start(ls), ls.len() as int) is None,
    ensures
        ({
            let out = insert_author_def(ls, a, author_def_line(a));
            author_defs_ascending(out, trailing_block_start(out))
        }),
{
    let line = author_def_line(a);
    let bs = trailing_block_start(ls);
    let out = insert_author_def(ls, a, line);
    lemma_block_start_below(ls, ls.len() as int);
    lemma_block_start_shape(ls, ls.len() as int);
    lemma_last_author_def_last(ls, bs, ls.len() as int);
    lemma_first_pr_def_from(ls, bs);
    lemma_author_def_line_is_def(a);
    lemma_blank_no_author();
    lemma_blank_no_label();
    match first_pr_def_from(ls, bs) {
        Some(fp) => {
            let mid = ls.insert(fp, seq![]);
            lemma_insert_plain_in_block(ls, fp, seq![]);
            lemma_insert_plain_in_block(mid, fp, line);
            assert(out == mid.insert(fp, line));
            assert forall|m: int| bs <= m < out.len() && m != fp implies author_label(#[trigger] out[m]) is None by {
                let mm = if m < fp { m } else { m - 1 };
                assert(out[m] == mid[mm]);
                if mm != fp {
                    let mmm = if mm < fp { mm } else { mm - 1 };
                    assert(mid[mm] == ls[mmm]);
                }
            }
            lemma_single_author_ascending(out, bs, fp);
        },
        None => {
            let nb = if ls.len() > 0 && !text::is_blank(ls.last()) && !block_line(ls.last()) {
                ls.len() as int
            } else {
                bs
            };
            assert forall|m: int| nb <= m < out.len() implies block_line(#[trigger] out[m]) by {
                if m < ls.len() {
                    assert(out[m] == ls[m]);
                }
            }
            if nb > 0 {
                assert(out[nb - 1] == ls[nb - 1]);
            }
            lemma_block_start_is(out, out.len() as int, nb);
            assert forall|m: int| nb <= m < out.len() && m != out.len() - 1 implies author_label(#[trigger] out[m]) is None by {
                if m < ls.len() {
                    assert(out[m] == ls[m]);
                } else {
                    assert(out[m] == Seq::<char>::empty());
                }
            }
            lemma_single_author_ascending(out, nb, out.len() - 1);
        },
    }
}

/// Inserting an author definition keeps the trailing block's `[@login]` definitions in
/// alphabetical order (for a login that holds no `]`).
pub proof fn lemma_insert_author_def_ascending(ls: Seq<Seq<char>>, a: Seq<char>)
    requires
        !text::has_char(a, ']'),
        author_defs_ascending(ls, trailing_block_start(ls)),
    ensures
        ({
            let out = insert_author_def(ls, a, author_def_line(a));
            author_defs_ascending(out, trailing_block_start(out))
        }),
{
    let line = author_def_line(a);
    let bs = trailing_block_start(ls);
    lemma_block_start_below(ls, ls.len() as int);
    lemma_last_author_def(ls, bs, ls.len() as int);
    lemma_last_author_def_last(ls, bs, ls.len() as int);
    lemma_first_author_greater_from(ls, a, bs);
    lemma_first_author_greater_first(ls, a, bs);
    lemma_first_pr_def_from(ls, bs);
    lemma_author_def_line_is_def(a);
    lemma_author_def_line_label(a);
    lemma_blank_no_author();
    lemma_blank_no_label();
    match last_author_def(ls, bs, ls.len() as int) {
        None => {
            lemma_author_new_group(ls, a);
        },
        Some(last) => {
            match first_author_greater_from(ls, a, bs) {
                Some(k) => {
                    assert forall|m: int| k <= m < ls.len() implies (author_label(#[trigger] ls[m]) matches Some(e) ==> text::lex_lt(a, e)) by {
                        if m > k {
                            if let Some(e) = author_label(ls[m]) {
                                let ek = author_label(ls[k])->0;
                                assert(match (author_label(ls[k]), author_label(ls[m])) {
                                    (Some(x), Some(y)) => !text::lex_lt(y, x),
                                    _ => true,
                                });
                                text::lemma_lex_lt_order(a, ek, e);
                                text::lemma_lex_lt_order(ek, e, ek);
                            }
                        }
                    }
                    assert forall|m: int| bs <= m < k implies (author_label(#[trigger] ls[m]) matches Some(e) ==> !text::lex_lt(a, e)) by {}
                    lemma_insert_author_at(ls, k, line, a);
                },
                None => {
                    lemma_insert_author_at(ls, last + 1, line, a);
                },
            }
        },
    }
}

/// Inserting a pull-request definition keeps the trailing block's `[@login]` order.
proof fn lemma_insert_pr_def_author_order(ls: Seq<Seq<char>>, repo: Seq<char>, n: u64)
    requires
        author_defs_ascending(ls, trailing_block_start(ls)),
    ensures
        ({
            let out = insert_pr_def(ls, n, pr_def_line(repo, n));
            author_defs_ascending(out, trailing_block_start(out))
        }),
{
    let line = pr_def_line(repo, n);
    let bs = trailing_block_start(ls);
    lemma_block_start_below(ls, ls.len() as int);
    lemma_block_start_shape(ls, ls.len() as int);
    lemma_last_pr_def(ls, bs, ls.len() as int);
    lemma_first_pr_greater_from(ls, n, bs);
    lemma_pr_def_line_is_def(repo, n);
    lemma_pr_def_line_no_author(repo, n);
    lemma_blank_no_author();
    lemma_blank_no_label();
    match last_pr_def(ls, bs, ls.len() as int) {
        None => {
            let base = if ls.len() > 0 && !text::is_blank(ls.last()) {
                ls.push(seq![])
            } else {
                ls
            };
            if ls.len() > 0 && !text::is_blank(ls.last()) {
                assert(ls.push(seq![]) =~= ls.insert(ls.len() as int, seq![]));
                lemma_insert_nonauthor_in_block(ls, ls.len() as int, seq![]);
            }
            assert(base.push(line) =~= base.insert(base.len() as int, line));
            lemma_insert_nonauthor_in_block(base, base.len() as int, line);
        },
        Some(last) => {
            let at = match first_pr_greater_from(ls, n, bs) {
                Some(i) => i,
                None => last + 1,
            };
            lemma_insert_nonauthor_in_block(ls, at, line);
        },
    }
}

/// Adding author definitions keeps the trailing block's `[@login]` order.
proof fn lemma_add_authors_author_order(ls: Seq<Seq<char>>, authors: Seq<Seq<char>>)
    requires
        forall|i: int| 0 <= i < authors.len() ==> !text::has_char(#[trigger] authors[i], ']'),
        author_defs_ascending(ls, trailing_block_start(ls)),
    ensures
        ({
            let out = add_authors(ls, authors);
            author_defs_ascending(out, trailing_block_start(out))
        }),
    decreases authors.len(),
{
    if authors.len() > 0 {
        let a = authors[0];
        if !has_author_def(ls, a) {
            lemma_insert_author_def_ascending(ls, a);
        }
        assert forall|i: int| 0 <= i < authors.drop_first().len() implies !text::has_char(
            #[trigger] authors.drop_first()[i],
            ']',
        ) by {
            assert(authors.drop_first()[i] == authors[i + 1]);
        }
        let next = if has_author_def(ls, a) {
            ls
        } else {
            insert_author_def(ls, a, author_def_line(a))
        };
        lemma_add_authors_author_order(next, authors.drop_first());
    }
}

/// Adding pull-request definitions keeps the trailing block's `[@login]` order.
proof fn lemma_add_prs_author_order(ls: Seq<Seq<char>>, repo: Seq<char>, prs: Seq<u64>)
    requires
        author_defs_ascending(ls, trailing_block_start(ls)),
    ensures
        ({
            let out = add_prs(ls, repo, prs);
            author_defs_ascending(out, trailing_block_start(out))
        }),
    decreases prs.len(),
{
    if prs.len() > 0 {
        let n = prs[0];
        if !has_pr_def(ls, n) {
            lemma_insert_pr_def_author_order(ls, repo, n);
        }
        let next = if has_pr_def(ls, n) {
            ls
        } else {
            insert_pr_def(ls, n, pr_def_line(repo, n))
        };
        lemma_add_prs_author_order(next, repo, prs.drop_first());
    }
}

/// When the trailing block's `[@login]` definitions are in alphabetical order, they still are
/// after the definitions are updated (for logins that hold no `]`).
pub proof fn lemma_update_keeps_author_order(
    ls: Seq<Seq<char>>,
    repo: Seq<char>,
    prs: Seq<u64>,
    authors: Seq<Seq<char>>,
)
    requires
        forall|i: int| 0 <= i < authors.len() ==> !text::has_char(#[trigger] authors[i], ']'),
        author_defs_ascending(ls, trailing_block_start(ls)),
    ensures
        ({
            let out = update_lines(ls, repo, prs, authors);
            author_defs_ascending(out, trailing_block_start(out))
        }),
{
    lemma_add_authors_author_order(ls, authors);
    lemma_add_prs_author_order(add_authors(ls, authors), repo, prs);
}

// ---------------------------------------------------------------------------------------------
// Updating edits the lines of a changelog's text.
// ---------------------------------------------------------------------------------------------

/// Definition lines are plain when the repository and login are.
proof fn lemma_def_lines_plain(repo: Seq<char>, n: u64, a: Seq<char>)
    requires
        text::plain_line(repo),
        text::plain_line(a),
    ensures
        text::plain_line(pr_def_line(repo, n)),
        text::plain_line(author_def_line(a)),
{
    reveal_strlit("[#");
    reveal_strlit("[@");
    reveal_strlit("]: https://github.com/");
    reveal_strlit("/pull/");
    let d = numbers::decimal(n as nat);
    numbers::lemma_decimal(n as nat);
    assert forall|k: int| 0 <= k < d.len() implies d[k] != '\n' by {
        assert(numbers::is_digit(d[k]));
    }
    assert(numbers::is_digit(d.last()));
    text::lemma_literal_plain("[#"@);
    text::lemma_literal_plain("[@"@);
    text::lemma_literal_plain("]: https://github.com/"@);
    text::lemma_literal_plain("/pull/"@);
    text::lemma_literal_plain(d);
    text::lemma_concat_plain("[#"@, d);
    text::lemma_concat_plain("[#"@ + d, "]: https://github.com/"@);
    text::lemma_concat_plain("[#"@ + d + "]: https://github.com/"@, repo);
    text::lemma_concat_plain("[#"@ + d + "]: https://github.com/"@ + repo, "/pull/"@);
    text::lemma_concat_plain("[#"@ + d + "]: https://github.com/"@ + repo + "/pull/"@, d);
    text::lemma_concat_plain("[@"@, a);
    text::lemma_concat_plain("[@"@ + a, "]: https://github.com/"@);
    text::lemma_concat_plain("[@"@ + a + "]: https://github.com/"@, a);
}

/// Inserting a plain line keeps the lines plain.
proof fn lemma_insert_plain(ls: Seq<Seq<char>>, at: int, line: Seq<char>)
    requires
        0 <= at <= ls.len(),
        text::plain_lines(ls),
        text::plain_line(line),
    ensures
        text::plain_lines(ls.insert(at, line)),
{
    let out = ls.insert(at, line);
    assert forall|i: int| 0 <= i < out.len() implies text::plain_line(#[trigger] out[i]) by {
        if i < at {
            assert(out[i] == ls[i]);
        } else if i > at {
            assert(out[i] == ls[i - 1]);
        }
    }
}

/// Adding a definition line keeps the lines plain.
proof fn lemma_insert_defs_plain(ls: Seq<Seq<char>>, repo: Seq<char>, n: u64, a: Seq<char>)
    requires
        text::plain_lines(ls),
        text::plain_line(repo),
        text::plain_line(a),
    ensures
        text::plain_lines(insert_pr_def(ls, n, pr_def_line(repo, n))),
        text::plain_lines(insert_author_def(ls, a, author_def_line(a))),
{
    lemma_def_lines_plain(repo, n, a);
    let bs = trailing_block_start(ls);
    lemma_block_start_below(ls, ls.len() as int);
    lemma_last_pr_def(ls, bs, ls.len() as int);
    lemma_first_pr_greater_from(ls, n, bs);
    lemma_last_author_def(ls, bs, ls.len() as int);
    lemma_first_author_greater_from(ls, a, bs);
    lemma_first_pr_def_from(ls, bs);
    let base = if ls.len() > 0 && !text::is_blank(ls.last()) {
        ls.push(seq![])
    } else {
        ls
    };
    text::lemma_literal_plain(Seq::<char>::empty());
    assert(ls.push(seq![]) =~= ls.insert(ls.len() as int, seq![]));
    lemma_insert_plain(ls, ls.len() as int, seq![]);
    assert(base.push(pr_def_line(repo, n)) =~= base.insert(base.len() as int, pr_def_line(repo, n)));
    lemma_insert_plain(base, base.len() as int, pr_def_line(repo, n));
    assert(base.push(author_def_line(a)) =~= base.insert(base.len() as int, author_def_line(a)));
    lemma_insert_plain(base, base.len() as int, author_def_line(a));
    match last_pr_def(ls, bs, ls.len() as int) {
        None => {},
        Some(last) => {
            let at = match first_pr_greater_from(ls, n, bs) {
                Some(i) => i,
                None => last + 1,
            };
            lemma_insert_plain(ls, at, pr_def_line(repo, n));
        },
    }
    match last_author_def(ls, bs, ls.len() as int) {
        None => match first_pr_def_from(ls, bs) {
            Some(fp) => {
                lemma_insert_plain(ls, fp, seq![]);
                lemma_insert_plain(ls.insert(fp, seq![]), fp, author_def_line(a));
            },
            None => {},
        },
        Some(last) => {
            let at = match first_author_greater_from(ls, a, bs) {
                Some(i) => i,
                None => last + 1,
            };
            lemma_insert_plain(ls, at, author_def_line(a));
        },
    }
}

/// Adding author definitions keeps the lines plain.
proof fn lemma_add_authors_plain(ls: Seq<Seq<char>>, repo: Seq<char>, authors: Seq<Seq<char>>)
    requires
        text::plain_lines(ls),
        text::plain_line(repo),
        text::plain_lines(authors),
    ensures
        text::plain_lines(add_authors(ls, authors)),
    decreases authors.len(),
{
    if authors.len() > 0 {
        let a = authors[0];
        lemma_insert_defs_plain(ls, repo, 0, a);
        assert forall|i: int| 0 <= i < authors.drop_first().len() implies text::plain_line(#[trigger] authors.drop_first()[i]) by {
            assert(authors.drop_first()[i] == authors[i + 1]);
        }
        let next = if has_author_def(ls, a) {
            ls
        } else {
            insert_author_def(ls, a, author_def_line(a))
        };
        lemma_add_authors_plain(next, repo, authors.drop_first());
    }
}

/// Adding pull-request definitions keeps the lines plain.
proof fn lemma_add_prs_plain(ls: Seq<Seq<char>>, repo: Seq<char>, prs: Seq<u64>)
    requires
        text::plain_lines(ls),
        text::plain_line(repo),
    ensures
        text::plain_lines(add_prs(ls, repo, prs)),
    decreases prs.len(),
{
    if prs.len() > 0 {
        let n = prs[0];
        text::lemma_literal_plain(Seq::<char>::empty());
        lemma_insert_defs_plain(ls, repo, n, Seq::<char>::empty());
        let next = if has_pr_def(ls, n) {
            ls
        } else {
            insert_pr_def(ls, n, pr_def_line(repo, n))
        };
        lemma_add_prs_plain(next, repo, prs.drop_first());
    }
}

/// Updating with something to define gives at least one line.
proof fn lemma_update_lines_nonempty(ls: Seq<Seq<char>>, repo: Seq<char>, prs: Seq<u64>, authors: Seq<Seq<char>>)
    requires
        prs.len() > 0 || authors.len() > 0,
    ensures
        update_lines(ls, repo, prs, authors).len() > 0,
{
    let mid = add_authors(ls, authors);
    let out = update_lines(ls, repo, prs, authors);
    lemma_add_prs_subseq(mid, repo, prs);
    lemma_add_authors_subseq(ls, authors);
    if ls.len() > 0 {
        subseq::lemma_subseq_trans(ls, mid, out);
        let f = choose|f: Seq<int>| subseq::embeds(ls, out, f);
        assert(0 <= f[0] < out.len());
    } else if authors.len() > 0 {
        let a = authors[0];
        assert(!has_author_def(ls, a));
        let next = insert_author_def(ls, a, author_def_line(a));
        lemma_insert_author_def_contains(ls, a, author_def_line(a));
        lemma_add_authors_subseq(next, authors.drop_first());
        subseq::lemma_subseq_trans(next, mid, out);
        let f = choose|f: Seq<int>| subseq::embeds(next, out, f);
        assert(next.len() > 0);
        assert(0 <= f[0] < out.len());
    } else {
        assert(mid == ls);
        let n = prs[0];
        assert(!has_pr_def(ls, n));
        let next = insert_pr_def(ls, n, pr_def_line(repo, n));
        lemma_insert_pr_def_contains(ls, n, pr_def_line(repo, n));
        lemma_add_prs_subseq(next, repo, prs.drop_first());
        let f = choose|f: Seq<int>| subseq::embeds(next, out, f);
        assert(next.len() > 0);
        assert(0 <= f[0] < out.len());
    }
}

/// Whether the last of `ls` is a non-empty line.
pub open spec fn ends_nonempty(ls: Seq<Seq<char>>) -> bool {
    ls.len() > 0 && ls.last().len() > 0
}

/// Inserting a non-empty line keeps the last line non-empty.
proof fn lemma_insert_ends_nonempty(ls: Seq<Seq<char>>, at: int, x: Seq<char>)
    requires
        0 <= at <= ls.len(),
        x.len() > 0,
        ls.len() == 0 || ends_nonempty(ls),
    ensures
        ends_nonempty(ls.insert(at, x)),
{
    if at < ls.len() {
        assert(ls.insert(at, x).last() == ls.last());
    } else {
        assert(ls.insert(at, x).last() == x);
    }
}

/// Inserting a definition line keeps the last line non-empty.
proof fn lemma_insert_defs_end_nonempty(ls: Seq<Seq<char>>, repo: Seq<char>, n: u64, a: Seq<char>)
    requires
        ls.len() == 0 || ends_nonempty(ls),
    ensures
        ends_nonempty(insert_pr_def(ls, n, pr_def_line(repo, n))),
        ends_nonempty(insert_author_def(ls, a, author_def_line(a))),
{
    reveal_strlit("[#");
    reveal_strlit("[@");
    let pl = pr_def_line(repo, n);
    let al = author_def_line(a);
    assert(pl.len() > 0 && al.len() > 0);
    let bs = trailing_block_start(ls);
    lemma_block_start_below(ls, ls.len() as int);
    lemma_last_pr_def(ls, bs, ls.len() as int);
    lemma_first_pr_greater_from(ls, n, bs);
    lemma_last_author_def(ls, bs, ls.len() as int);
    lemma_first_author_greater_from(ls, a, bs);
    lemma_first_pr_def_from(ls, bs);
    assert(append_new_group(ls, pl).last() == pl);
    assert(append_new_group(ls, al).last() == al);
    match last_pr_def(ls, bs, ls.len() as int) {
        None => {},
        Some(last) => {
            let at = match first_pr_greater_from(ls, n, bs) {
                Some(i) => i,
                None => last + 1,
            };
            lemma_insert_ends_nonempty(ls, at, pl);
        },
    }
    match last_author_def(ls, bs, ls.len() as int) {
        None => match first_pr_def_from(ls, bs) {
            Some(fp) => {
                let l2 = ls.insert(fp, seq![]);
                assert(l2.last() == ls.last());
                lemma_insert_ends_nonempty(l2, fp, al);
            },
            None => {},
        },
        Some(last) => {
            let at = match first_author_greater_from(ls, a, bs) {
                Some(i) => i,
                None => last + 1,
            };
            lemma_insert_ends_nonempty(ls, at, al);
        },
    }
}

/// Adding definitions keeps the last line non-empty.
proof fn lemma_add_defs_end_nonempty(
    ls: Seq<Seq<char>>,
    repo: Seq<char>,
    prs: Seq<u64>,
    authors: Seq<Seq<char>>,
)
    requires
        ls.len() == 0 || ends_nonempty(ls),
    ensures
        add_prs(ls, repo, prs).len() == 0 || ends_nonempty(add_prs(ls, repo, prs)),
        add_authors(ls, authors).len() == 0 || ends_nonempty(add_authors(ls, authors)),
    decreases prs.len() + authors.len(),
{
    if prs.len() > 0 {
        let n = prs[0];
        lemma_insert_defs_end_nonempty(ls, repo, n, seq![]);
        let next = if has_pr_def(ls, n) {
            ls
        } else {
            insert_pr_def(ls, n, pr_def_line(repo, n))
        };
        lemma_add_defs_end_nonempty(next, repo, prs.drop_first(), seq![]);
    }
    if authors.len() > 0 {
        let a = authors[0];
        lemma_insert_defs_end_nonempty(ls, repo, 0, a);
        let next = if has_author_def(ls, a) {
            ls
        } else {
            insert_author_def(ls, a, author_def_line(a))
        };
        lemma_add_defs_end_nonempty(next, repo, seq![], authors.drop_first());
    }
}

/// For a changelog text that does not end with a newline and whose lines are plain, and a plain
/// repository and logins, updating edits its list of lines: the lines of the updated text are
/// the updated lines.
pub proof fn lemma_update_unterminated_text_lines(
    content: Seq<char>,
    repo: Seq<char>,
    prs: Seq<u64>,
    authors: Seq<Seq<char>>,
)
    requires
        !text::ends_with(content, "\n"@),
        text::plain_lines(text::lines(content)),
        text::plain_line(repo),
        text::plain_lines(authors),
    ensures
        prs.len() > 0 || authors.len() > 0 ==> update_lines(text::lines(content), repo, prs, authors)
            == text::lines(update_defs(content, repo, prs, authors)),
{
    let ls = text::lines(content);
    if content.len() > 0 {
        text::lemma_lines_last_nonempty(content);
    } else {
        assert(ls =~= Seq::<Seq<char>>::empty());
    }
    if prs.len() > 0 || authors.len() > 0 {
        let mid = add_authors(ls, authors);
        let out = update_lines(ls, repo, prs, authors);
        lemma_add_authors_plain(ls, repo, authors);
        lemma_add_prs_plain(mid, repo, prs);
        lemma_add_defs_end_nonempty(ls, repo, seq![], authors);
        lemma_add_defs_end_nonempty(mid, repo, prs, seq![]);
        let r = text::join_lines(out);
        assert(update_defs(content, repo, prs, authors) == r);
        lemma_update_lines_nonempty(ls, repo, prs, authors);
        assert(text::no_newlines(out));
        text::lemma_lines_join_unterminated(out);
        assert(text::strip_cr_all(out.drop_last()) =~= out.drop_last()) by {
            assert forall|k: int| 0 <= k < out.drop_last().len() implies text::strip_cr(
                #[trigger] out.drop_last()[k],
            ) == out.drop_last()[k] by {
                assert(out.drop_last()[k] == out[k]);
            }
        }
        assert(out.drop_last().push(out.last()) =~= out);
    }
}

/// For a changelog text that ends with a newline and has plain lines, and a plain repository
/// and logins, updating edits its list of lines: the lines of the updated text are the updated
/// lines.
pub proof fn lemma_update_text_lines(
    content: Seq<char>,
    repo: Seq<char>,
    prs: Seq<u64>,
    authors: Seq<Seq<char>>,
)
    requires
        text::ends_with(content, "\n"@),
        text::plain_lines(text::lines(content)),
        text::plain_line(repo),
        text::plain_lines(authors),
    ensures
        ({
            let r = update_defs(content, repo, prs, authors);
            &&& text::ends_with(r, "\n"@)
            &&& text::plain_lines(text::lines(r))
            &&& (prs.len() == 0 && authors.len() == 0 ==> r == content)
            &&& (prs.len() > 0 || authors.len() > 0 ==> update_lines(text::lines(content), repo, prs, authors)
                == text::lines(r))
        }),
{
    reveal_strlit("\n");
    let ls = text::lines(content);
    if prs.len() > 0 || authors.len() > 0 {
        let out = update_lines(ls, repo, prs, authors);
        lemma_add_authors_plain(ls, repo, authors);
        lemma_add_prs_plain(add_authors(ls, authors), repo, prs);
        let r = text::join_lines(out) + seq!['\n'];
        assert(update_defs(content, repo, prs, authors) == r);
        assert(text::ends_with(r, "\n"@)) by {
            assert(r.skip(r.len() - 1) =~= "\n"@);
        }
        lemma_update_lines_nonempty(ls, repo, prs, authors);
        text::lemma_lines_join_plain(out);
    }
}

/// After the definitions of a changelog's text are updated, its lines define every requested
/// pull request and author (for a text with plain lines, a plain repository, and plain logins
/// without `]`).
pub proof fn lemma_update_text_defines_all(
    content: Seq<char>,
    repo: Seq<char>,
    prs: Seq<u64>,
    authors: Seq<Seq<char>>,
)
    requires
        text::plain_lines(text::lines(content)),
        text::plain_line(repo),
        text::plain_lines(authors),
        forall|i: int| 0 <= i < authors.len() ==> !text::has_char(#[trigger] authors[i], ']'),
    ensures
        forall|i: int|
            0 <= i < prs.len() ==> has_pr_def(text::lines(update_defs(content, repo, prs, authors)), #[trigger] prs[i]),
        forall|i: int|
            0 <= i < authors.len() ==> has_author_def(
                text::lines(update_defs(content, repo, prs, authors)),
                #[trigger] authors[i],
            ),
{
    if text::ends_with(content, "\n"@) {
        lemma_update_text_lines(content, repo, prs, authors);
    } else {
        lemma_update_unterminated_text_lines(content, repo, prs, authors);
    }
    lemma_update_defines_all(text::lines(content), repo, prs, authors);
}

/// Updating the definitions only inserts whole new lines: every line of the text is kept, in
/// order (for a text with plain lines, and a plain repository and logins).
pub proof fn lemma_update_keeps_text_lines(
    content: Seq<char>,
    repo: Seq<char>,
    prs: Seq<u64>,
    authors: Seq<Seq<char>>,
)
    requires
        text::plain_lines(text::lines(content)),
        text::plain_line(repo),
        text::plain_lines(authors),
    ensures
        subseq::is_subseq(text::lines(content), text::lines(update_defs(content, repo, prs, authors))),
{
    let ls = text::lines(content);
    if text::ends_with(content, "\n"@) {
        lemma_update_text_lines(content, repo, prs, authors);
    } else {
        lemma_update_unterminated_text_lines(content, repo, prs, authors);
    }
    lemma_update_lines_subseq(ls, repo, prs, authors);
    if prs.len() == 0 && authors.len() == 0 {
        subseq::lemma_subseq_refl(ls);
    }
}

// ---------------------------------------------------------------------------------------------
// Implementation.
// ---------------------------------------------------------------------------------------------

/// The label of a reference definition line.
pub fn def_label_of(line: &[char]) -> (r: Option<Vec<char>>)
    ensures
        match r {
            Some(v) => def_label(line@) == Some(v@),
            None => def_label(line@) is None,
        },
{
    let t = trim_start_chars(line);
    let open = chars_of("[");
    let close = chars_of("]");
    proof {
        reveal_strlit("[");
    }
    if !has_prefix(&t, &open) {
        return None;
    }
    let rest = subslice(&t, 1, t.len());
    assert(rest@ =~= t@.skip(1));
    match find_chars(&rest, &close) {
        None => None,
        Some(idx) => {
            proof {
                text::lemma_find_from(rest@, close@, 0);
            }
            let label = subslice(&rest, 0, idx);
            assert(label@ =~= rest@.take(idx as int));
            Some(label)
        },
    }
}

/// The pull-request number of a `[#N]` definition.
pub fn pr_label_of(line: &[char]) -> (r: Option<u64>)
    ensures
        r == pr_label_num(line@),
{
    let hash = chars_of("#");
    proof {
        reveal_strlit("#");
    }
    match def_label_of(line) {
        None => None,
        Some(l) => {
            if has_prefix(&l, &hash) {
                let digits = subslice(&l, 1, l.len());
                assert(digits@ =~= l@.skip(1));
                numbers::parse_u64_chars(&digits)
            } else {
                None
            }
        },
    }
}

/// The login of a `[@login]` definition.
pub fn author_label_of(line: &[char]) -> (r: Option<Vec<char>>)
    ensures
        match r {
            Some(v) => author_label(line@) == Some(v@),
            None => author_label(line@) is None,
        },
{
    let at = chars_of("@");
    proof {
        reveal_strlit("@");
    }
    match def_label_of(line) {
        None => None,
        Some(l) => {
            if has_prefix(&l, &at) {
                let login = subslice(&l, 1, l.len());
                assert(login@ =~= l@.skip(1));
                Some(login)
            } else {
                None
            }
        },
    }
}

/// The first line of the trailing reference-definition block.
pub fn trailing_block_start_of(ls: &Vec<Vec<char>>) -> (r: usize)
    ensures
        r as int == trailing_block_start(text::views(ls@)),
        r <= ls.len(),
{
    let ghost lv = text::views(ls@);
    let mut start: usize = ls.len();
    while start > 0
        invariant
            start <= ls.len(),
            lv == text::views(ls@),
            block_start_below(lv, ls.len() as int) == block_start_below(lv, start as int),
        decreases start,
    {
        assert(lv[start - 1] == ls@[start - 1]@);
        if blank(&ls[start - 1]) || is_ref_def(&ls[start - 1]) {
            start -= 1;
        } else {
            return start;
        }
    }
    start
}

/// Starts a fresh definition group with `new_line` at the very end of the file.
fn append_group(ls: &mut Vec<Vec<char>>, new_line: Vec<char>)
    ensures
        text::views(final(ls)@) == append_new_group(text::views(old(ls)@), new_line@),
{
    let ghost before = text::views(ls@);
    if ls.len() > 0 && !blank(&ls[ls.len() - 1]) {
        ls.push(Vec::new());
    }
    ls.push(new_line);
    assert(text::views(ls@) =~= append_new_group(before, new_line@));
}

/// The first `[#N]` definition at or after `lo`.
fn first_pr_def_index(ls: &Vec<Vec<char>>, lo: usize) -> (r: Option<usize>)
    requires
        lo <= ls.len(),
    ensures
        match r {
            Some(i) => first_pr_def_from(text::views(ls@), lo as int) == Some(i as int) && i
                < ls.len(),
            None => first_pr_def_from(text::views(ls@), lo as int) is None,
        },
{
    let ghost lv = text::views(ls@);
    let mut i = lo;
    while i < ls.len()
        invariant
            lo <= i <= ls.len(),
            lv == text::views(ls@),
            first_pr_def_from(lv, lo as int) == first_pr_def_from(lv, i as int),
        decreases ls.len() - i,
    {
        assert(lv[i as int] == ls@[i as int]@);
        if pr_label_of(&ls[i]).is_some() {
            return Some(i);
        }
        i += 1;
    }
    None
}

/// The first `[#N]` definition at or after `lo` with `N > n`.
fn first_pr_greater_index(ls: &Vec<Vec<char>>, n: u64, lo: usize) -> (r: Option<usize>)
    requires
        lo <= ls.len(),
    ensures
        match r {
            Some(i) => first_pr_greater_from(text::views(ls@), n, lo as int) == Some(i as int) && i
                < ls.len(),
            None => first_pr_greater_from(text::views(ls@), n, lo as int) is None,
        },
{
    let ghost lv = text::views(ls@);
    let mut i = lo;
    while i < ls.len()
        invariant
            lo <= i <= ls.len(),
            lv == text::views(ls@),
            first_pr_greater_from(lv, n, lo as int) == first_pr_greater_from(lv, n, i as int),
        decreases ls.len() - i,
    {
        assert(lv[i as int] == ls@[i as int]@);
        match pr_label_of(&ls[i]) {
            Some(e) => {
                if e > n {
                    return Some(i);
                }
            },
            None => {},
        }
        i += 1;
    }
    None
}

/// The last `[#N]` definition at or after `lo`.
fn last_pr_def_index(ls: &Vec<Vec<char>>, lo: usize) -> (r: Option<usize>)
    requires
        lo <= ls.len(),
    ensures
        match r {
            Some(i) => last_pr_def(text::views(ls@), lo as int, ls.len() as int) == Some(i as int)
                && i < ls.len(),
            None => last_pr_def(text::views(ls@), lo as int, ls.len() as int) is None,
        },
{
    let ghost lv = text::views(ls@);
    let mut k: usize = ls.len();
    while k > lo
        invariant
            lo <= k <= ls.len(),
            lv == text::views(ls@),
            last_pr_def(lv, lo as int, ls.len() as int) == last_pr_def(lv, lo as int, k as int),
        decreases k,
    {
        assert(lv[k - 1] == ls@[k - 1]@);
        if pr_label_of(&ls[k - 1]).is_some() {
            return Some(k - 1);
        }
        k -= 1;
    }
    None
}

/// The first `[@login]` definition at or after `lo` whose login sorts after `login`.
fn first_author_greater_index(ls: &Vec<Vec<char>>, login: &[char], lo: usize) -> (r: Option<usize>)
    requires
        lo <= ls.len(),
    ensures
        match r {
            Some(i) => first_author_greater_from(text::views(ls@), login@, lo as int) == Some(
                i as int,
            ) && i < ls.len(),
            None => first_author_greater_from(text::views(ls@), login@, lo as int) is None,
        },
{
    let ghost lv = text::views(ls@);
    let mut i = lo;
    while i < ls.len()
        invariant
            lo <= i <= ls.len(),
            lv == text::views(ls@),
            first_author_greater_from(lv, login@, lo as int) == first_author_greater_from(
                lv,
                login@,
                i as int,
            ),
        decreases ls.len() - i,
    {
        assert(lv[i as int] == ls@[i as int]@);
        match author_label_of(&ls[i]) {
            Some(e) => {
                if lex_less(login, &e) {
                    return Some(i);
                }
            },
            None => {},
        }
        i += 1;
    }
    None
}

/// The last `[@login]` definition at or after `lo`.
fn last_author_def_index(ls: &Vec<Vec<char>>, lo: usize) -> (r: Option<usize>)
    requires
        lo <= ls.len(),
    ensures
        match r {
            Some(i) => last_author_def(text::views(ls@), lo as int, ls.len() as int) == Some(
                i as int,
            ) && i < ls.len(),
            None => last_author_def(text::views(ls@), lo as int, ls.len() as int) is None,
        },
{
    let ghost lv = text::views(ls@);
    let mut k: usize = ls.len();
    while k > lo
        invariant
            lo <= k <= ls.len(),
            lv == text::views(ls@),
            last_author_def(lv, lo as int, ls.len() as int) == last_author_def(
                lv,
                lo as int,
                k as int,
            ),
        decreases k,
    {
        assert(lv[k - 1] == ls@[k - 1]@);
        if author_label_of(&ls[k - 1]).is_some() {
            return Some(k - 1);
        }
        k -= 1;
    }
    None
}

/// Inserts a `[#n]` definition line into the trailing definition block, keeping ascending
/// order among the block's existing `[#N]` definitions. Definitions elsewhere in the file are
/// ignored for placement. If the block has no `[#N]` definitions yet, a new group is appended
/// at the end.
pub fn insert_pr_def_line(ls: &mut Vec<Vec<char>>, n: u64, new_line: Vec<char>)
    ensures
        text::views(final(ls)@) == insert_pr_def(text::views(old(ls)@), n, new_line@),
{
    let ghost before = text::views(ls@);
    let block_start = trailing_block_start_of(ls);
    match last_pr_def_index(ls, block_start) {
        None => append_group(ls, new_line),
        Some(last) => {
            let at = match first_pr_greater_index(ls, n, block_start) {
                Some(i) => i,
                None => last + 1,
            };
            ls.insert(at, new_line);
            assert(text::views(ls@) =~= before.insert(at as int, new_line@));
        },
    }
}

/// Inserts a `[@login]` definition line into the trailing definition block, keeping
/// alphabetical order among the block's existing `[@login]` definitions. If the block has none
/// yet, a new group is started just before the block's `[#N]` group (if any) or appended at the
/// end.
pub fn insert_author_def_line(ls: &mut Vec<Vec<char>>, login: &[char], new_line: Vec<char>)
    ensures
        text::views(final(ls)@) == insert_author_def(text::views(old(ls)@), login@, new_line@),
{
    let ghost before = text::views(ls@);
    let block_start = trailing_block_start_of(ls);
    match last_author_def_index(ls, block_start) {
        None => {
            match first_pr_def_index(ls, block_start) {
                Some(first_pr) => {
                    ls.insert(first_pr, Vec::new());
                    let ghost mid = text::views(ls@);
                    assert(mid =~= before.insert(first_pr as int, seq![]));
                    ls.insert(first_pr, new_line);
                    assert(text::views(ls@) =~= mid.insert(first_pr as int, new_line@));
                },
                None => append_group(ls, new_line),
            }
        },
        Some(last) => {
            let at = match first_author_greater_index(ls, login, block_start) {
                Some(i) => i,
                None => last + 1,
            };
            ls.insert(at, new_line);
            assert(text::views(ls@) =~= before.insert(at as int, new_line@));
        },
    }
}

/// Whether some line is a reference definition of `[#n]`.
fn has_pr_def_line(ls: &Vec<Vec<char>>, n: u64) -> (r: bool)
    ensures
        r == has_pr_def(text::views(ls@), n),
{
    let ghost lv = text::views(ls@);
    let mut i: usize = 0;
    while i < ls.len()
        invariant
            i <= ls.len(),
            lv == text::views(ls@),
            forall|k: int| 0 <= k < i ==> !is_pr_def_of(#[trigger] lv[k], n),
        decreases ls.len() - i,
    {
        assert(lv[i as int] == ls@[i as int]@);
        if pr_label_of(&ls[i]) == Some(n) && merge::is_ref_def(&ls[i]) {
            return true;
        }
        i += 1;
    }
    false
}

/// Whether some line is a reference definition of `[@a]`.
fn has_author_def_line(ls: &Vec<Vec<char>>, a: &[char]) -> (r: bool)
    ensures
        r == has_author_def(text::views(ls@), a@),
{
    let ghost lv = text::views(ls@);
    let mut i: usize = 0;
    while i < ls.len()
        invariant
            i <= ls.len(),
            lv == text::views(ls@),
            forall|k: int| 0 <= k < i ==> !is_author_def_of(#[trigger] lv[k], a@),
        decreases ls.len() - i,
    {
        assert(lv[i as int] == ls@[i as int]@);
        match author_label_of(&ls[i]) {
            Some(l) => {
                if chars_eq(&l, a) && merge::is_ref_def(&ls[i]) {
                    return true;
                }
            },
            None => {},
        }
        i += 1;
    }
    false
}

/// The definition line for an author.
pub fn author_def_line_of(a: &[char]) -> (r: Vec<char>)
    ensures
        r@ == author_def_line(a@),
{
    let mut r = chars_of("[@");
    append_chars(&mut r, a);
    append_chars(&mut r, &chars_of("]: https://github.com/"));
    append_chars(&mut r, a);
    r
}

/// The definition line for a pull request of `repo`.
pub fn pr_def_line_of(repo: &[char], n: u64) -> (r: Vec<char>)
    ensures
        r@ == pr_def_line(repo@, n),
{
    let digits = numbers::decimal_chars(n);
    let mut r = chars_of("[#");
    append_chars(&mut r, &digits);
    append_chars(&mut r, &chars_of("]: https://github.com/"));
    append_chars(&mut r, repo);
    append_chars(&mut r, &chars_of("/pull/"));
    append_chars(&mut r, &digits);
    r
}

/// Whether some line of `ls` equals `line`.
fn contains_line(ls: &Vec<Vec<char>>, line: &[char]) -> (r: bool)
    ensures
        r == exists|k: int| 0 <= k < ls.len() && ls@[k]@ == line@,
{
    let mut i: usize = 0;
    while i < ls.len()
        invariant
            i <= ls.len(),
            forall|k: int| 0 <= k < i ==> (#[trigger] ls@[k])@ != line@,
        decreases ls.len() - i,
    {
        if chars_eq(&ls[i], line) {
            return true;
        }
        i += 1;
    }
    false
}

/// Ensures a `[#N]: https://github.com/<repo>/pull/N` definition exists for every `pr_numbers`
/// entry, and a `[@u]: https://github.com/u` definition for every `authors` entry.
///
/// This only ever inserts new definition lines among the existing ones: existing definitions
/// are never moved or removed. As a safety net for that invariant, it refuses to return a
/// result that lost an existing reference definition (which the contract shows never happens).
pub fn update_reference_defs(
    content: &str,
    repo: &str,
    pr_numbers: &Vec<u64>,
    authors: &Vec<String>,
) -> (r: Result<String, ChangelogError>)
    ensures
        r matches Ok(s) && s@ == update_defs(content@, repo@, pr_numbers@, text::string_views(authors@)),
{
    let c = chars_of(content);
    if pr_numbers.len() == 0 && authors.len() == 0 {
        return Ok(string_of(&c));
    }
    let repo_chars = chars_of(repo);
    let original = lines_of(&c);
    let ghost orig = text::views(original@);
    let mut lines = lines_range(&original, 0, original.len());
    assert(orig.subrange(0, orig.len() as int) =~= orig);
    let author_list = text::chars_of_strings(authors);
    let ghost av = text::views(author_list@);
    let mut i: usize = 0;
    assert(av.skip(0) =~= av);
    while i < author_list.len()
        invariant
            i <= author_list.len(),
            orig == text::views(original@),
            av == text::views(author_list@),
            add_authors(text::views(lines@), av.skip(i as int)) == add_authors(orig, av),
        decreases author_list.len() - i,
    {
        let a = &author_list[i];
        assert(av.skip(i as int)[0] == a@);
        assert(av.skip(i as int).drop_first() =~= av.skip(i + 1));
        if !has_author_def_line(&lines, a) {
            let line = author_def_line_of(a);
            insert_author_def_line(&mut lines, a, line);
        }
        i += 1;
    }
    assert(av.skip(i as int) =~= Seq::<Seq<char>>::empty());
    let mut j: usize = 0;
    let ghost pv = pr_numbers@;
    let ghost mid = text::views(lines@);
    assert(pv.skip(0) =~= pv);
    while j < pr_numbers.len()
        invariant
            j <= pr_numbers.len(),
            orig == text::views(original@),
            pv == pr_numbers@,
            repo_chars@ == repo@,
            add_prs(text::views(lines@), repo@, pv.skip(j as int)) == add_prs(
                mid,
                repo@,
                pv,
            ),
        decreases pr_numbers.len() - j,
    {
        let n = pr_numbers[j];
        assert(pv.skip(j as int)[0] == n);
        assert(pv.skip(j as int).drop_first() =~= pv.skip(j + 1));
        if !has_pr_def_line(&lines, n) {
            let line = pr_def_line_of(&repo_chars, n);
            insert_pr_def_line(&mut lines, n, line);
        }
        j += 1;
    }
    assert(pv.skip(j as int) =~= Seq::<u64>::empty());
    assert(text::views(lines@) == update_lines(orig, repo@, pv, av));
    // Safety net: every reference definition of the given text must still be present.
    proof {
        lemma_update_lines_subseq(orig, repo@, pv, av);
    }
    let mut k: usize = 0;
    while k < original.len()
        invariant
            k <= original.len(),
            orig == text::views(original@),
            text::views(lines@) == update_lines(orig, repo@, pv, av),
            subseq::is_subseq(orig, text::views(lines@)),
        decreases original.len() - k,
    {
        if is_ref_def(&original[k]) && !contains_line(&lines, &original[k]) {
            proof {
                let f = choose|f: Seq<int>| subseq::embeds(orig, text::views(lines@), f);
                assert(orig[k as int] == text::views(lines@)[f[k as int]]);
                assert(lines@[f[k as int]]@ == original@[k as int]@);
            }
            return Err(ChangelogError::DroppedDefinition(string_of(&original[k])));
        }
        k += 1;
    }
    let mut out = join_chars(&lines);
    let nl = chars_of("\n");
    if text::has_suffix(&c, &nl) {
        out.push('\n');
    }
    Ok(string_of(&out))
}

} // verus!
