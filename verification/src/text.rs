//! Character-level text primitives: the model of `str` operations the changelog
//! tooling relies on (whitespace trimming, prefix and suffix tests, searching,
//! line splitting and joining), over `Seq<char>` in specifications and
//! `Vec<char>` / `&[char]` in executable code.

use vstd::prelude::*;

verus! {

// ---------------------------------------------------------------------------------------------
// Conversions between `str`/`String` and characters.
// ---------------------------------------------------------------------------------------------

/// Appends one character to a string.
///
/// Calls `String::push`, which appends the character to the end of the string.
#[verifier::external_body]
pub(crate) fn push_char(s: &mut String, c: char)
    ensures
        final(s)@ == old(s)@.push(c),
{
    s.push(c);
}

/// The characters of a string slice.
pub fn chars_of(s: &str) -> (r: Vec<char>)
    ensures
        r@ == s@,
{
    let mut r: Vec<char> = Vec::new();
    for c in it: s.chars()
        invariant
            r@ == it.seq().take(it.index() as int),
    {
        r.push(c);
    }
    r
}

/// A string holding exactly the given characters.
pub fn string_of(v: &[char]) -> (r: String)
    ensures
        r@ == v@,
{
    let mut r = String::new();
    let mut i: usize = 0;
    while i < v.len()
        invariant
            i <= v.len(),
            r@ == v@.take(i as int),
        decreases v.len() - i,
    {
        push_char(&mut r, v[i]);
        assert(v@.take(i as int).push(v@[i as int]) =~= v@.take(i + 1));
        i += 1;
    }
    assert(v@.take(v.len() as int) =~= v@);
    r
}

/// The views of a sequence of character vectors.
pub open spec fn views(v: Seq<Vec<char>>) -> Seq<Seq<char>> {
    v.map_values(|x: Vec<char>| x@)
}

/// The views of a sequence of strings.
pub open spec fn string_views(v: Seq<String>) -> Seq<Seq<char>> {
    v.map_values(|x: String| x@)
}

/// Converts a list of character vectors into strings.
pub fn strings_of(v: &Vec<Vec<char>>) -> (r: Vec<String>)
    ensures
        string_views(r@) == views(v@),
{
    let mut r: Vec<String> = Vec::new();
    let mut i: usize = 0;
    while i < v.len()
        invariant
            i <= v.len(),
            r@.len() == i,
            forall|k: int| 0 <= k < i ==> #[trigger] r@[k]@ == v@[k]@,
        decreases v.len() - i,
    {
        let s = string_of(&v[i]);
        r.push(s);
        i += 1;
    }
    assert(string_views(r@) =~= views(v@));
    r
}

/// Converts a list of strings into character vectors.
pub fn chars_of_strings(v: &Vec<String>) -> (r: Vec<Vec<char>>)
    ensures
        views(r@) == string_views(v@),
{
    let mut r: Vec<Vec<char>> = Vec::new();
    let mut i: usize = 0;
    while i < v.len()
        invariant
            i <= v.len(),
            r@.len() == i,
            forall|k: int| 0 <= k < i ==> #[trigger] r@[k]@ == v@[k]@,
        decreases v.len() - i,
    {
        let s = chars_of(v[i].as_str());
        r.push(s);
        i += 1;
    }
    assert(views(r@) =~= string_views(v@));
    r
}

/// A copy of `s[lo..hi]`.
pub fn subslice(s: &[char], lo: usize, hi: usize) -> (r: Vec<char>)
    requires
        lo <= hi <= s.len(),
    ensures
        r@ == s@.subrange(lo as int, hi as int),
{
    let mut r: Vec<char> = Vec::new();
    let mut i = lo;
    while i < hi
        invariant
            lo <= i <= hi,
            hi <= s.len(),
            r@ == s@.subrange(lo as int, i as int),
        decreases hi - i,
    {
        r.push(s[i]);
        assert(s@.subrange(lo as int, i as int).push(s@[i as int]) =~= s@.subrange(
            lo as int,
            i + 1,
        ));
        i += 1;
    }
    r
}

/// Appends `t` to `v`.
pub fn append_chars(v: &mut Vec<char>, t: &[char])
    ensures
        final(v)@ == old(v)@ + t@,
{
    let mut i: usize = 0;
    while i < t.len()
        invariant
            i <= t.len(),
            v@ == old(v)@ + t@.take(i as int),
        decreases t.len() - i,
    {
        v.push(t[i]);
        assert(old(v)@ + t@.take(i + 1) =~= old(v)@ + t@.take(i as int) + seq![t@[i as int]]);
        i += 1;
    }
    assert(t@.take(t.len() as int) =~= t@);
}

/// Whether two character slices are equal.
pub fn chars_eq(a: &[char], b: &[char]) -> (r: bool)
    ensures
        r == (a@ == b@),
{
    if a.len() != b.len() {
        return false;
    }
    let mut i: usize = 0;
    while i < a.len()
        invariant
            i <= a.len(),
            a.len() == b.len(),
            a@.take(i as int) == b@.take(i as int),
        decreases a.len() - i,
    {
        if a[i] != b[i] {
            assert(a@[i as int] != b@[i as int]);
            return false;
        }
        assert(a@.take(i + 1) =~= a@.take(i as int).push(a@[i as int]));
        assert(b@.take(i + 1) =~= b@.take(i as int).push(b@[i as int]));
        i += 1;
    }
    assert(a@ =~= a@.take(i as int));
    assert(b@ =~= b@.take(i as int));
    true
}

// ---------------------------------------------------------------------------------------------
// Whitespace and trimming.
// ---------------------------------------------------------------------------------------------

/// Unicode `White_Space`, the set that `char::is_whitespace` (and so `str::trim`) uses.
pub open spec fn is_white(c: char) -> bool {
    let u = c as u32;
    ||| 0x09 <= u <= 0x0D
    ||| u == 0x20
    ||| u == 0x85
    ||| u == 0xA0
    ||| u == 0x1680
    ||| 0x2000 <= u <= 0x200A
    ||| u == 0x2028
    ||| u == 0x2029
    ||| u == 0x202F
    ||| u == 0x205F
    ||| u == 0x3000
}

/// Executable [`is_white`].
pub fn is_white_char(c: char) -> (r: bool)
    ensures
        r == is_white(c),
{
    let u = c as u32;
    (0x09 <= u && u <= 0x0D) || u == 0x20 || u == 0x85 || u == 0xA0 || u == 0x1680 || (0x2000
        <= u && u <= 0x200A) || u == 0x2028 || u == 0x2029 || u == 0x202F || u == 0x205F || u
        == 0x3000
}

/// `s` without its leading whitespace.
pub open spec fn trim_start(s: Seq<char>) -> Seq<char>
    decreases s.len(),
{
    if s.len() > 0 && is_white(s[0]) {
        trim_start(s.drop_first())
    } else {
        s
    }
}

/// `s` without its trailing whitespace.
pub open spec fn trim_end(s: Seq<char>) -> Seq<char>
    decreases s.len(),
{
    if s.len() > 0 && is_white(s.last()) {
        trim_end(s.drop_last())
    } else {
        s
    }
}

/// `s` without its leading and trailing whitespace.
pub open spec fn trim(s: Seq<char>) -> Seq<char> {
    trim_end(trim_start(s))
}

/// Whether `s` is empty or all whitespace.
pub open spec fn is_blank(s: Seq<char>) -> bool {
    trim(s).len() == 0
}

/// The number of leading whitespace characters of `s`.
pub fn leading_white(s: &[char]) -> (i: usize)
    ensures
        i <= s.len(),
        s@.skip(i as int) == trim_start(s@),
{
    let mut i: usize = 0;
    assert(s@.skip(0) =~= s@);
    while i < s.len() && is_white_char(s[i])
        invariant
            i <= s.len(),
            trim_start(s@.skip(i as int)) == trim_start(s@),
        decreases s.len() - i,
    {
        assert(s@.skip(i as int).drop_first() =~= s@.skip(i + 1));
        i += 1;
    }
    i
}

/// The length of `s` without its trailing whitespace.
pub fn without_trailing_white(s: &[char], lo: usize) -> (j: usize)
    requires
        lo <= s.len(),
    ensures
        lo <= j <= s.len(),
        s@.subrange(lo as int, j as int) == trim_end(s@.subrange(lo as int, s.len() as int)),
{
    let mut j: usize = s.len();
    while j > lo && is_white_char(s[j - 1])
        invariant
            lo <= j <= s.len(),
            trim_end(s@.subrange(lo as int, j as int)) == trim_end(
                s@.subrange(lo as int, s.len() as int),
            ),
        decreases j,
    {
        assert(s@.subrange(lo as int, j as int).drop_last() =~= s@.subrange(lo as int, j - 1));
        j -= 1;
    }
    j
}

/// `s` without leading whitespace.
pub fn trim_start_chars(s: &[char]) -> (r: Vec<char>)
    ensures
        r@ == trim_start(s@),
{
    let i = leading_white(s);
    let r = subslice(s, i, s.len());
    assert(s@.skip(i as int) =~= s@.subrange(i as int, s.len() as int));
    r
}

/// `s` without trailing whitespace.
pub fn trim_end_chars(s: &[char]) -> (r: Vec<char>)
    ensures
        r@ == trim_end(s@),
{
    let j = without_trailing_white(s, 0);
    assert(s@.subrange(0, s.len() as int) =~= s@);
    subslice(s, 0, j)
}

/// `s` without leading and trailing whitespace.
pub fn trim_chars(s: &[char]) -> (r: Vec<char>)
    ensures
        r@ == trim(s@),
{
    let t = trim_start_chars(s);
    trim_end_chars(&t)
}

/// Whether `s` is empty or all whitespace.
pub fn blank(s: &[char]) -> (r: bool)
    ensures
        r == is_blank(s@),
{
    let t = trim_chars(s);
    t.len() == 0
}

// ---------------------------------------------------------------------------------------------
// Prefixes, suffixes, searching.
// ---------------------------------------------------------------------------------------------

/// Whether `s` starts with `p`.
pub open spec fn starts_with(s: Seq<char>, p: Seq<char>) -> bool {
    p.len() <= s.len() && s.take(p.len() as int) == p
}

/// Whether `s` ends with `p`.
pub open spec fn ends_with(s: Seq<char>, p: Seq<char>) -> bool {
    p.len() <= s.len() && s.skip(s.len() - p.len()) == p
}

/// Whether `p` occurs in `s` at position `i`.
pub open spec fn matches_at(s: Seq<char>, p: Seq<char>, i: int) -> bool {
    0 <= i && i + p.len() <= s.len() && s.subrange(i, i + p.len()) == p
}

/// The first position at or after `i` where `p` occurs in `s`.
pub open spec fn find_from(s: Seq<char>, p: Seq<char>, i: int) -> Option<int>
    decreases s.len() + 1 - i,
{
    if i < 0 || i + p.len() > s.len() {
        None
    } else if matches_at(s, p, i) {
        Some(i)
    } else {
        find_from(s, p, i + 1)
    }
}

/// The first position where `p` occurs in `s` (`str::find`).
pub open spec fn find(s: Seq<char>, p: Seq<char>) -> Option<int> {
    find_from(s, p, 0)
}

/// The last position below `k` where `p` occurs in `s`.
pub open spec fn rfind_below(s: Seq<char>, p: Seq<char>, k: int) -> Option<int>
    decreases k,
{
    if k <= 0 {
        None
    } else if matches_at(s, p, k - 1) {
        Some(k - 1)
    } else {
        rfind_below(s, p, k - 1)
    }
}

/// The last position where `p` occurs in `s` (`str::rfind`).
pub open spec fn rfind(s: Seq<char>, p: Seq<char>) -> Option<int> {
    rfind_below(s, p, s.len() as int + 1)
}

/// What [`find_from`] finds: the first match at or after `i`.
pub proof fn lemma_find_from(s: Seq<char>, p: Seq<char>, i: int)
    requires
        0 <= i,
    ensures
        find_from(s, p, i) matches Some(k) ==> i <= k && matches_at(s, p, k) && forall|m: int|
            i <= m < k ==> !matches_at(s, p, m),
        find_from(s, p, i) is None ==> forall|m: int| i <= m ==> !matches_at(s, p, m),
    decreases s.len() + 1 - i,
{
    if i + p.len() > s.len() {
    } else if matches_at(s, p, i) {
    } else {
        lemma_find_from(s, p, i + 1);
    }
}

/// What [`rfind_below`] finds: the last match below `k`.
pub proof fn lemma_rfind_below(s: Seq<char>, p: Seq<char>, k: int)
    ensures
        rfind_below(s, p, k) matches Some(j) ==> 0 <= j < k && matches_at(s, p, j) && forall|m: int|
            j < m < k ==> !matches_at(s, p, m),
        rfind_below(s, p, k) is None ==> forall|m: int| m < k ==> !matches_at(s, p, m),
    decreases k,
{
    if k > 0 {
        lemma_rfind_below(s, p, k - 1);
    }
}

/// Whether `p` occurs in `s` at position `i`.
pub fn matches_here(s: &[char], p: &[char], i: usize) -> (r: bool)
    ensures
        r == matches_at(s@, p@, i as int),
{
    if i > s.len() || p.len() > s.len() - i {
        return false;
    }
    let mut k: usize = 0;
    while k < p.len()
        invariant
            k <= p.len(),
            i + p.len() <= s.len(),
            s@.subrange(i as int, i + k) == p@.take(k as int),
        decreases p.len() - k,
    {
        if s[i + k] != p[k] {
            assert(s@.subrange(i as int, i + p.len())[k as int] != p@[k as int]);
            return false;
        }
        assert(s@.subrange(i as int, i + k + 1) =~= s@.subrange(i as int, i + k).push(
            s@[i + k],
        ));
        assert(p@.take(k + 1) =~= p@.take(k as int).push(p@[k as int]));
        k += 1;
    }
    assert(p@.take(k as int) =~= p@);
    true
}

/// The first position at or after `from` where `p` occurs in `s`.
pub fn find_chars_from(s: &[char], p: &[char], from: usize) -> (r: Option<usize>)
    ensures
        r matches Some(k) ==> find_from(s@, p@, from as int) == Some(k as int),
        r is None ==> find_from(s@, p@, from as int) is None,
{
    let mut i = from;
    while i <= s.len() && p.len() <= s.len() - i
        invariant
            from <= i,
            find_from(s@, p@, from as int) == find_from(s@, p@, i as int),
        decreases s.len() + 1 - i,
    {
        if matches_here(s, p, i) {
            return Some(i);
        }
        if i == s.len() {
            assert(find_from(s@, p@, i + 1) is None);
            return None;
        }
        i += 1;
    }
    None
}

/// The first position where `p` occurs in `s`.
pub fn find_chars(s: &[char], p: &[char]) -> (r: Option<usize>)
    ensures
        r matches Some(k) ==> find(s@, p@) == Some(k as int),
        r is None ==> find(s@, p@) is None,
{
    find_chars_from(s, p, 0)
}

/// The last position where `p` occurs in `s`.
pub fn rfind_chars(s: &[char], p: &[char]) -> (r: Option<usize>)
    ensures
        r matches Some(k) ==> rfind(s@, p@) == Some(k as int),
        r is None ==> rfind(s@, p@) is None,
{
    let mut k: usize = s.len();
    // Positions above `s.len()` never match.
    assert(!matches_at(s@, p@, s.len() as int) || p.len() == 0);
    if p.len() == 0 {
        assert(matches_at(s@, p@, s.len() as int)) by {
            assert(s@.subrange(s.len() as int, s.len() as int) =~= p@);
        }
        return Some(s.len());
    }
    assert(rfind(s@, p@) == rfind_below(s@, p@, k as int));
    loop
        invariant
            k <= s.len(),
            rfind(s@, p@) == rfind_below(s@, p@, k as int),
        decreases k,
    {
        if k == 0 {
            return None;
        }
        if matches_here(s, p, k - 1) {
            return Some(k - 1);
        }
        k -= 1;
    }
}

/// Whether `s` starts with `p`.
pub fn has_prefix(s: &[char], p: &[char]) -> (r: bool)
    ensures
        r == starts_with(s@, p@),
{
    let r = matches_here(s, p, 0);
    assert(s@.take(p.len() as int) =~= s@.subrange(0, p.len() as int));
    r
}

/// Whether `s` ends with `p`.
pub fn has_suffix(s: &[char], p: &[char]) -> (r: bool)
    ensures
        r == ends_with(s@, p@),
{
    if p.len() > s.len() {
        return false;
    }
    let r = matches_here(s, p, s.len() - p.len());
    assert(s@.skip(s.len() - p.len()) =~= s@.subrange(s.len() - p.len(), s.len() as int));
    r
}

// ---------------------------------------------------------------------------------------------
// ASCII case folding.
// ---------------------------------------------------------------------------------------------

/// `char::to_ascii_lowercase`.
pub open spec fn ascii_lower(c: char) -> char {
    if 'A' <= c <= 'Z' {
        ((c as u32) + 32) as char
    } else {
        c
    }
}

/// `str::eq_ignore_ascii_case`.
pub open spec fn eq_ignore_ascii_case(a: Seq<char>, b: Seq<char>) -> bool {
    a.len() == b.len() && forall|i: int| 0 <= i < a.len() ==> ascii_lower(a[i]) == ascii_lower(b[i])
}

/// Executable [`ascii_lower`].
pub fn ascii_lower_char(c: char) -> (r: char)
    ensures
        r == ascii_lower(c),
{
    if 'A' <= c && c <= 'Z' {
        let u = (c as u32) + 32;
        assert(0x61 <= u <= 0x7A);
        char_from_ascii(u)
    } else {
        c
    }
}

/// The character with the given ASCII code.
fn char_from_ascii(u: u32) -> (c: char)
    requires
        u < 128,
    ensures
        c == u as char,
{
    let b = u as u8;
    b as char
}

/// Executable [`eq_ignore_ascii_case`].
pub fn eq_ignore_case(a: &[char], b: &[char]) -> (r: bool)
    ensures
        r == eq_ignore_ascii_case(a@, b@),
{
    if a.len() != b.len() {
        return false;
    }
    let mut i: usize = 0;
    while i < a.len()
        invariant
            i <= a.len(),
            a.len() == b.len(),
            forall|k: int| 0 <= k < i ==> ascii_lower(a@[k]) == ascii_lower(b@[k]),
        decreases a.len() - i,
    {
        if ascii_lower_char(a[i]) != ascii_lower_char(b[i]) {
            return false;
        }
        i += 1;
    }
    true
}

// ---------------------------------------------------------------------------------------------
// Lines.
// ---------------------------------------------------------------------------------------------

/// A line without the `'\r'` that may end it.
pub open spec fn strip_cr(s: Seq<char>) -> Seq<char> {
    if s.len() > 0 && s.last() == '\r' {
        s.drop_last()
    } else {
        s
    }
}

/// `str::lines`: the pieces of `s` between `'\n'` characters, each without a `'\r'` before its
/// `'\n'`; a final `'\n'` ends the last line rather than starting an empty one.
pub open spec fn lines(s: Seq<char>) -> Seq<Seq<char>>
    decreases s.len(),
{
    if s.len() == 0 {
        seq![]
    } else {
        match find(s, seq!['\n']) {
            None => seq![s],
            Some(i) => if 0 <= i < s.len() {
                seq![strip_cr(s.take(i))] + lines(s.skip(i + 1))
            } else {
                seq![]
            },
        }
    }
}

/// The lines of `ls` joined with `'\n'` between them (`[String]::join("\n")`).
pub open spec fn join_lines(ls: Seq<Seq<char>>) -> Seq<char>
    decreases ls.len(),
{
    if ls.len() == 0 {
        seq![]
    } else if ls.len() == 1 {
        ls[0]
    } else {
        ls[0] + seq!['\n'] + join_lines(ls.drop_first())
    }
}

/// Whether `s` holds the character `c`.
pub open spec fn has_char(s: Seq<char>, c: char) -> bool {
    exists|i: int| 0 <= i < s.len() && s[i] == c
}

/// `find` of a one-character pattern finds the first occurrence of the character.
pub proof fn lemma_find_char(s: Seq<char>, c: char)
    ensures
        find(s, seq![c]) matches Some(i) ==> 0 <= i < s.len() && s[i] == c && forall|m: int|
            0 <= m < i ==> s[m] != c,
        find(s, seq![c]) is None ==> !has_char(s, c),
{
    lemma_find_from(s, seq![c], 0);
    if let Some(i) = find(s, seq![c]) {
        assert(s.subrange(i, i + 1)[0] == s[i]);
        assert forall|m: int| 0 <= m < i implies s[m] != c by {
            if s[m] == c {
                assert(s.subrange(m, m + 1) =~= seq![c]);
                assert(matches_at(s, seq![c], m));
            }
        }
    } else {
        assert forall|m: int| 0 <= m < s.len() implies s[m] != c by {
            if s[m] == c {
                assert(s.subrange(m, m + 1) =~= seq![c]);
                assert(matches_at(s, seq![c], m));
            }
        }
    }
}

/// The lines of a line followed by `'\n'` and more text.
pub proof fn lemma_lines_cons(x: Seq<char>, y: Seq<char>)
    requires
        !has_char(x, '\n'),
    ensures
        lines(x + seq!['\n'] + y) == seq![strip_cr(x)] + lines(y),
{
    let s = x + seq!['\n'] + y;
    lemma_find_char(s, '\n');
    assert(s[x.len() as int] == '\n');
    let i = find(s, seq!['\n'])->0;
    if i < x.len() {
        assert(s[i] == x[i]);
    }
    assert(i == x.len());
    assert(s.take(i) =~= x);
    assert(s.skip(i + 1) =~= y);
}

/// The lines of a text with no `'\n'`.
pub proof fn lemma_lines_single(x: Seq<char>)
    requires
        !has_char(x, '\n'),
        x.len() > 0,
    ensures
        lines(x) == seq![x],
{
    lemma_find_char(x, '\n');
}

/// Whether no line of `ls` holds a `'\n'`.
pub open spec fn no_newlines(ls: Seq<Seq<char>>) -> bool {
    forall|i: int| 0 <= i < ls.len() ==> !has_char(#[trigger] ls[i], '\n')
}

/// Every line without a `'\r'` that may end it.
pub open spec fn strip_cr_all(ls: Seq<Seq<char>>) -> Seq<Seq<char>> {
    ls.map_values(|l: Seq<char>| strip_cr(l))
}

/// A line that splitting a text at `'\n'` gives back unchanged: no `'\n'`, and no final `'\r'`.
pub open spec fn plain_line(l: Seq<char>) -> bool {
    !has_char(l, '\n') && strip_cr(l) == l
}

/// Whether every line is plain.
pub open spec fn plain_lines(ls: Seq<Seq<char>>) -> bool {
    forall|i: int| 0 <= i < ls.len() ==> plain_line(#[trigger] ls[i])
}

/// Two plain texts make a plain text.
pub proof fn lemma_concat_plain(a: Seq<char>, b: Seq<char>)
    requires
        plain_line(a),
        plain_line(b),
    ensures
        plain_line(a + b),
{
    if has_char(a + b, '\n') {
        let k = choose|k: int| 0 <= k < (a + b).len() && (a + b)[k] == '\n';
        if k < a.len() {
            assert(a[k] == '\n');
        } else {
            assert(b[k - a.len()] == '\n');
        }
    }
    if b.len() > 0 {
        assert((a + b).last() == b.last());
        if b.last() == '\r' {
            assert(b.drop_last().len() != b.len());
        }
    } else {
        assert(a + b =~= a);
    }
    if (a + b).len() > 0 && (a + b).last() == '\r' {
        assert((a + b).drop_last().len() != (a + b).len());
    }
}

/// A literal whose characters are neither `'\n'` nor, at the end, `'\r'` is plain.
pub proof fn lemma_literal_plain(l: Seq<char>)
    requires
        forall|k: int| 0 <= k < l.len() ==> l[k] != '\n',
        l.len() > 0 ==> l.last() != '\r',
    ensures
        plain_line(l),
{
}

/// Runs of plain lines make a run of plain lines.
pub proof fn lemma_plain_lines_concat(a: Seq<Seq<char>>, b: Seq<Seq<char>>)
    requires
        plain_lines(a),
        plain_lines(b),
    ensures
        plain_lines(a + b),
{
    assert forall|i: int| 0 <= i < (a + b).len() implies plain_line(#[trigger] (a + b)[i]) by {
        if i < a.len() {
            assert((a + b)[i] == a[i]);
        } else {
            assert((a + b)[i] == b[i - a.len()]);
        }
    }
}

/// Joining plain lines and ending them with `'\n'` is undone by splitting the text.
pub proof fn lemma_lines_join_plain(ls: Seq<Seq<char>>)
    requires
        ls.len() > 0,
        plain_lines(ls),
    ensures
        lines(join_lines(ls) + seq!['\n']) == ls,
{
    assert(no_newlines(ls));
    lemma_lines_join_terminated(ls);
    assert(strip_cr_all(ls) =~= ls);
}

/// A part of a text without `'\n'` has none.
pub proof fn lemma_subrange_no_newline(s: Seq<char>, i: int, j: int)
    requires
        !has_char(s, '\n'),
        0 <= i <= j <= s.len(),
    ensures
        !has_char(s.subrange(i, j), '\n'),
{
    if has_char(s.subrange(i, j), '\n') {
        let k = choose|k: int| 0 <= k < s.subrange(i, j).len() && s.subrange(i, j)[k] == '\n';
        assert(s[i + k] == '\n');
    }
}

/// Trimming the start leaves a suffix.
pub proof fn lemma_trim_start_suffix(s: Seq<char>)
    ensures
        trim_start(s).len() <= s.len(),
        trim_start(s) == s.skip(s.len() - trim_start(s).len()),
    decreases s.len(),
{
    if s.len() > 0 && is_white(s[0]) {
        lemma_trim_start_suffix(s.drop_first());
        assert(s.drop_first().skip(s.drop_first().len() - trim_start(s.drop_first()).len()) =~= s.skip(
            s.len() - trim_start(s).len(),
        ));
    } else {
        assert(s.skip(0) =~= s);
    }
}

/// Trimming the end leaves a prefix that does not end in whitespace.
pub proof fn lemma_trim_end_prefix(s: Seq<char>)
    ensures
        trim_end(s).len() <= s.len(),
        trim_end(s) == s.take(trim_end(s).len() as int),
        trim_end(s).len() > 0 ==> !is_white(trim_end(s).last()),
    decreases s.len(),
{
    if s.len() > 0 && is_white(s.last()) {
        lemma_trim_end_prefix(s.drop_last());
        assert(s.drop_last().take(trim_end(s).len() as int) =~= s.take(trim_end(s).len() as int));
    } else {
        assert(s.take(s.len() as int) =~= s);
    }
}

/// Trimming a text without `'\n'` gives a plain line.
pub proof fn lemma_trim_plain(s: Seq<char>)
    requires
        !has_char(s, '\n'),
    ensures
        plain_line(trim(s)),
{
    let t = trim_start(s);
    lemma_trim_start_suffix(s);
    lemma_subrange_no_newline(s, s.len() - t.len(), s.len() as int);
    assert(t =~= s.subrange(s.len() - t.len(), s.len() as int));
    lemma_trim_end_prefix(t);
    lemma_subrange_no_newline(t, 0, trim_end(t).len() as int);
    assert(trim_end(t) =~= t.subrange(0, trim_end(t).len() as int));
    assert(is_white('\r'));
}

/// Splitting lines that were joined with a final `'\n'` gives them back, each without a `'\r'`
/// that ended it.
pub proof fn lemma_lines_join_terminated(ls: Seq<Seq<char>>)
    requires
        ls.len() > 0,
        no_newlines(ls),
    ensures
        lines(join_lines(ls) + seq!['\n']) == strip_cr_all(ls),
    decreases ls.len(),
{
    if ls.len() == 1 {
        assert(join_lines(ls) + seq!['\n'] =~= ls[0] + seq!['\n'] + Seq::<char>::empty());
        lemma_lines_cons(ls[0], seq![]);
        assert(strip_cr_all(ls) =~= seq![strip_cr(ls[0])]);
        assert(lines(Seq::<char>::empty()) =~= Seq::<Seq<char>>::empty());
        assert(seq![strip_cr(ls[0])] + Seq::<Seq<char>>::empty() =~= seq![strip_cr(ls[0])]);
    } else {
        let rest = ls.drop_first();
        assert(no_newlines(rest)) by {
            assert forall|i: int| 0 <= i < rest.len() implies !has_char(#[trigger] rest[i], '\n') by {
                assert(rest[i] == ls[i + 1]);
            }
        }
        lemma_lines_join_terminated(rest);
        assert(join_lines(ls) + seq!['\n'] =~= ls[0] + seq!['\n'] + (join_lines(rest) + seq![
            '\n',
        ]));
        lemma_lines_cons(ls[0], join_lines(rest) + seq!['\n']);
        assert(strip_cr_all(ls) =~= seq![strip_cr(ls[0])] + strip_cr_all(rest));
    }
}

/// Splitting lines that were joined without a final `'\n'` gives them back, each but the last
/// without a `'\r'` that ended it, when the last one is not empty.
pub proof fn lemma_lines_join_unterminated(ls: Seq<Seq<char>>)
    requires
        ls.len() > 0,
        ls.last().len() > 0,
        no_newlines(ls),
    ensures
        lines(join_lines(ls)) == strip_cr_all(ls.drop_last()).push(ls.last()),
    decreases ls.len(),
{
    if ls.len() == 1 {
        lemma_lines_single(ls[0]);
        assert(strip_cr_all(ls.drop_last()).push(ls.last()) =~= seq![ls[0]]);
    } else {
        let rest = ls.drop_first();
        assert(no_newlines(rest)) by {
            assert forall|i: int| 0 <= i < rest.len() implies !has_char(#[trigger] rest[i], '\n') by {
                assert(rest[i] == ls[i + 1]);
            }
        }
        assert(rest.last() == ls.last());
        lemma_lines_join_unterminated(rest);
        lemma_lines_cons(ls[0], join_lines(rest));
        assert(strip_cr_all(ls.drop_last()).push(ls.last()) =~= seq![strip_cr(ls[0])] + (
        strip_cr_all(rest.drop_last()).push(rest.last())));
    }
}

/// No line that `lines` produces holds a `'\n'`.
pub proof fn lemma_lines_no_newlines(s: Seq<char>)
    ensures
        no_newlines(lines(s)),
    decreases s.len(),
{
    if s.len() > 0 {
        lemma_find_char(s, '\n');
        match find(s, seq!['\n']) {
            None => {},
            Some(i) => {
                lemma_lines_no_newlines(s.skip(i + 1));
                let first = strip_cr(s.take(i));
                assert(!has_char(first, '\n')) by {
                    if has_char(first, '\n') {
                        let k = choose|k: int| 0 <= k < first.len() && first[k] == '\n';
                        assert(s[k] == '\n');
                    }
                }
                let ls = lines(s);
                let tail = lines(s.skip(i + 1));
                assert(ls == seq![first] + tail);
                assert forall|k: int| 0 <= k < ls.len() implies !has_char(#[trigger] ls[k], '\n') by {
                    if k > 0 {
                        assert(ls[k] == tail[k - 1]);
                    }
                }
            },
        }
    }
}

/// Removing a final `'\r'` does not change what trimming leaves.
pub proof fn lemma_trim_strip_cr(l: Seq<char>)
    ensures
        trim(strip_cr(l)) == trim(l),
{
    if l.len() > 0 && l.last() == '\r' {
        let x = l.drop_last();
        assert(is_white('\r'));
        lemma_trim_start_append_white(x, '\r');
        assert(l =~= x.push('\r'));
    }
}

/// The last line of a non-empty text that does not end with a newline is not empty.
pub proof fn lemma_lines_last_nonempty(s: Seq<char>)
    requires
        s.len() > 0,
        !ends_with(s, "\n"@),
    ensures
        lines(s).len() > 0,
        lines(s).last().len() > 0,
    decreases s.len(),
{
    reveal_strlit("\n");
    lemma_find_from(s, seq!['\n'], 0);
    match find(s, seq!['\n']) {
        None => {},
        Some(i) => {
            assert(s.subrange(i, i + 1)[0] == s[i]);
            if i == s.len() - 1 {
                assert(s.skip(s.len() - 1) =~= "\n"@);
            }
            let t = s.skip(i + 1);
            assert(t.last() == s.last());
            if ends_with(t, "\n"@) {
                assert(t.skip(t.len() - 1)[0] == t.last());
                assert(s.skip(s.len() - 1) =~= "\n"@);
            }
            lemma_lines_last_nonempty(t);
            let l = seq![strip_cr(s.take(i))] + lines(t);
            assert(l.last() == lines(t).last());
        },
    }
}

/// Trimming the start commutes with removing a final `'\r'`.
pub proof fn lemma_trim_start_strip_cr(l: Seq<char>)
    ensures
        trim_start(strip_cr(l)) == strip_cr(trim_start(l)),
{
    if l.len() > 0 && l.last() == '\r' {
        let x = l.drop_last();
        assert(is_white('\r'));
        lemma_trim_start_append_white(x, '\r');
        assert(l =~= x.push('\r'));
        if trim_start(x).len() > 0 {
            assert(trim_start(x).push('\r').drop_last() =~= trim_start(x));
        }
    } else {
        lemma_trim_start_suffix(l);
        if trim_start(l).len() > 0 {
            assert(trim_start(l).last() == l.last());
        }
    }
}

/// Removing a final `'\r'` does not change whether a text starts with a pattern that does not
/// end with one.
pub proof fn lemma_starts_with_strip_cr(t: Seq<char>, p: Seq<char>)
    requires
        p.len() > 0,
        p.last() != '\r',
    ensures
        starts_with(strip_cr(t), p) == starts_with(t, p),
{
    if t.len() > 0 && t.last() == '\r' {
        let x = t.drop_last();
        if starts_with(t, p) {
            if p.len() == t.len() {
                assert(t.take(p.len() as int)[p.len() - 1] == t.last());
            }
            assert(x.take(p.len() as int) =~= t.take(p.len() as int));
        }
        if starts_with(x, p) {
            assert(x.take(p.len() as int) =~= t.take(p.len() as int));
        }
    }
}

/// Removing a final `'\r'` does not change where a pattern that does not end with one occurs.
pub proof fn lemma_find_strip_cr(s: Seq<char>, p: Seq<char>)
    requires
        p.len() > 0,
        p.last() != '\r',
    ensures
        find(strip_cr(s), p) == find(s, p),
{
    lemma_find_from_strip_cr(s, p, 0);
}

/// [`lemma_find_strip_cr`], from position `i` on.
proof fn lemma_find_from_strip_cr(s: Seq<char>, p: Seq<char>, i: int)
    requires
        p.len() > 0,
        p.last() != '\r',
    ensures
        find_from(strip_cr(s), p, i) == find_from(s, p, i),
    decreases s.len() + 1 - i,
{
    let t = strip_cr(s);
    if s.len() > 0 && s.last() == '\r' {
        assert(matches_at(t, p, i) == matches_at(s, p, i)) by {
            if matches_at(s, p, i) {
                if i + p.len() == s.len() {
                    assert(s.subrange(i, i + p.len())[p.len() - 1] == s.last());
                }
                assert(t.subrange(i, i + p.len()) =~= s.subrange(i, i + p.len()));
            }
            if matches_at(t, p, i) {
                assert(t.subrange(i, i + p.len()) =~= s.subrange(i, i + p.len()));
            }
        }
        if !(i < 0 || i + p.len() > s.len()) && !matches_at(s, p, i) {
            lemma_find_from_strip_cr(s, p, i + 1);
        }
    }
}

/// Dropping a first part commutes with removing a final `'\r'`, when the part lies within
/// what is left.
pub proof fn lemma_skip_strip_cr(s: Seq<char>, k: int)
    requires
        0 <= k <= strip_cr(s).len(),
    ensures
        strip_cr(s).skip(k) == strip_cr(s.skip(k)),
{
    if s.len() > 0 && s.last() == '\r' {
        assert(s.skip(k).last() == s.last());
        assert(s.skip(k).drop_last() =~= s.drop_last().skip(k));
    }
}

/// Trimming the start of a text followed by whitespace.
pub proof fn lemma_trim_start_append_white(x: Seq<char>, c: char)
    requires
        is_white(c),
    ensures
        trim_start(x).len() > 0 ==> trim_start(x.push(c)) == trim_start(x).push(c),
        trim_start(x).len() == 0 ==> trim_start(x.push(c)).len() == 0,
        trim_end(trim_start(x.push(c))) == trim_end(trim_start(x)),
    decreases x.len(),
{
    if x.len() > 0 && is_white(x[0]) {
        lemma_trim_start_append_white(x.drop_first(), c);
        assert(x.push(c).drop_first() =~= x.drop_first().push(c));
    } else if x.len() == 0 {
        assert(x.push(c) =~= seq![c]);
        assert(seq![c].drop_first() =~= Seq::<char>::empty());
        assert(trim_start(x.push(c)) == trim_start(Seq::<char>::empty()));
    } else {
        assert(trim_start(x.push(c)) == x.push(c));
        assert(x.push(c).drop_last() =~= x);
    }
}

/// Joining one more line.
pub proof fn lemma_join_push(ls: Seq<Seq<char>>, x: Seq<char>)
    ensures
        join_lines(ls.push(x)) == if ls.len() == 0 {
            x
        } else {
            join_lines(ls) + seq!['\n'] + x
        },
    decreases ls.len(),
{
    if ls.len() == 0 {
    } else if ls.len() == 1 {
        assert(ls.push(x).drop_first() =~= seq![x]);
        assert(join_lines(ls.push(x)) == ls[0] + seq!['\n'] + join_lines(seq![x]));
    } else {
        lemma_join_push(ls.drop_first(), x);
        assert(ls.push(x).drop_first() =~= ls.drop_first().push(x));
        assert(ls.push(x)[0] == ls[0]);
        assert(join_lines(ls.push(x)) == ls[0] + seq!['\n'] + join_lines(ls.drop_first().push(x)));
        assert(join_lines(ls.push(x)) =~= join_lines(ls) + seq!['\n'] + x);
    }
}

/// Executable [`strip_cr`].
pub fn strip_cr_chars(v: Vec<char>) -> (r: Vec<char>)
    ensures
        r@ == strip_cr(v@),
{
    let mut v = v;
    if v.len() > 0 && v[v.len() - 1] == '\r' {
        v.pop();
    }
    v
}

/// Executable [`lines`].
pub fn lines_of(s: &[char]) -> (r: Vec<Vec<char>>)
    ensures
        views(r@) == lines(s@),
{
    let mut r: Vec<Vec<char>> = Vec::new();
    let mut pos: usize = 0;
    assert(s@.skip(0) =~= s@);
    while pos < s.len()
        invariant
            pos <= s.len(),
            views(r@) + lines(s@.skip(pos as int)) == lines(s@),
        decreases s.len() - pos,
    {
        let mut j = pos;
        while j < s.len() && s[j] != '\n'
            invariant
                pos <= j <= s.len(),
                forall|k: int| pos <= k < j ==> s@[k] != '\n',
            decreases s.len() - j,
        {
            j += 1;
        }
        let x = subslice(s, pos, j);
        assert(!has_char(x@, '\n'));
        let ghost old_r = views(r@);
        if j == s.len() {
            proof {
                assert(s@.skip(pos as int) =~= x@);
                lemma_lines_single(x@);
            }
            r.push(x);
            assert(views(r@) =~= old_r.push(x@));
            assert(s@.skip(s.len() as int) =~= Seq::<char>::empty());
            assert(lines(Seq::<char>::empty()) =~= Seq::<Seq<char>>::empty());
            pos = j;
            assert(views(r@) + lines(s@.skip(pos as int)) =~= old_r + seq![x@]);
        } else {
            proof {
                assert(s@.skip(pos as int) =~= x@ + seq!['\n'] + s@.skip(j + 1));
                lemma_lines_cons(x@, s@.skip(j + 1));
            }
            let y = strip_cr_chars(x);
            r.push(y);
            assert(views(r@) =~= old_r.push(strip_cr(x@)));
            pos = j + 1;
            assert(views(r@) + lines(s@.skip(pos as int)) =~= old_r + (seq![strip_cr(x@)]
                + lines(s@.skip(pos as int))));
        }
    }
    assert(s@.skip(pos as int) =~= Seq::<char>::empty());
    assert(views(r@) + lines(Seq::<char>::empty()) =~= views(r@));
    r
}

/// Executable [`join_lines`].
pub fn join_chars(ls: &Vec<Vec<char>>) -> (r: Vec<char>)
    ensures
        r@ == join_lines(views(ls@)),
{
    let mut r: Vec<char> = Vec::new();
    let mut i: usize = 0;
    while i < ls.len()
        invariant
            i <= ls.len(),
            r@ == join_lines(views(ls@).take(i as int)),
        decreases ls.len() - i,
    {
        proof {
            lemma_join_push(views(ls@).take(i as int), ls@[i as int]@);
            assert(views(ls@).take(i + 1) =~= views(ls@).take(i as int).push(ls@[i as int]@));
        }
        if i > 0 {
            r.push('\n');
        }
        append_chars(&mut r, &ls[i]);
        assert(i > 0 ==> r@ =~= join_lines(views(ls@).take(i as int)) + seq!['\n'] + ls@[i as int]@);
        i += 1;
    }
    assert(views(ls@).take(ls.len() as int) =~= views(ls@));
    r
}

// ---------------------------------------------------------------------------------------------
// Ordering.
// ---------------------------------------------------------------------------------------------

/// Lexicographic order on characters (the order of `str`'s `<`, which compares UTF-8 bytes and
/// so orders by code point).
pub open spec fn lex_lt(a: Seq<char>, b: Seq<char>) -> bool
    decreases a.len(),
{
    if a.len() == 0 {
        b.len() > 0
    } else if b.len() == 0 {
        false
    } else if a[0] != b[0] {
        (a[0] as u32) < (b[0] as u32)
    } else {
        lex_lt(a.drop_first(), b.drop_first())
    }
}

/// [`lex_lt`] is a strict total order.
pub proof fn lemma_lex_lt_order(a: Seq<char>, b: Seq<char>, c: Seq<char>)
    ensures
        !lex_lt(a, a),
        a != b ==> lex_lt(a, b) || lex_lt(b, a),
        lex_lt(a, b) ==> !lex_lt(b, a),
        lex_lt(a, b) && lex_lt(b, c) ==> lex_lt(a, c),
    decreases a.len(),
{
    if a.len() > 0 {
        if b.len() > 0 && c.len() > 0 {
            lemma_lex_lt_order(a.drop_first(), b.drop_first(), c.drop_first());
        }
        if b.len() > 0 {
            lemma_lex_lt_order(a.drop_first(), b.drop_first(), b.drop_first());
            if a[0] != b[0] {
                vstd::utf8::char_u32_cast(a[0], a[0] as u32);
                vstd::utf8::char_u32_cast(b[0], b[0] as u32);
            }
            if a != b && a[0] == b[0] {
                assert(a.drop_first() != b.drop_first()) by {
                    if a.drop_first() == b.drop_first() {
                        assert(a =~= seq![a[0]] + a.drop_first());
                        assert(b =~= seq![b[0]] + b.drop_first());
                    }
                }
            }
        }
        lemma_lex_lt_order(a.drop_first(), a.drop_first(), a.drop_first());
    } else {
        if b.len() == 0 {
            assert(a =~= b);
        }
    }
}

/// Executable [`lex_lt`].
pub fn lex_less(a: &[char], b: &[char]) -> (r: bool)
    ensures
        r == lex_lt(a@, b@),
{
    let mut i: usize = 0;
    assert(a@.skip(0) =~= a@);
    assert(b@.skip(0) =~= b@);
    while i < a.len() && i < b.len() && a[i] == b[i]
        invariant
            i <= a.len(),
            i <= b.len(),
            lex_lt(a@, b@) == lex_lt(a@.skip(i as int), b@.skip(i as int)),
        decreases a.len() - i,
    {
        assert(a@.skip(i as int).drop_first() =~= a@.skip(i + 1));
        assert(b@.skip(i as int).drop_first() =~= b@.skip(i + 1));
        i += 1;
    }
    if i == a.len() {
        i < b.len()
    } else if i == b.len() {
        false
    } else {
        assert(a@.skip(i as int)[0] == a@[i as int]);
        assert(b@.skip(i as int)[0] == b@[i as int]);
        (a[i] as u32) < (b[i] as u32)
    }
}

// ---------------------------------------------------------------------------------------------
// Lowercasing.
// ---------------------------------------------------------------------------------------------

/// The Unicode lowercase mapping of a text (`str::to_lowercase`).
pub uninterp spec fn lowercase(s: Seq<char>) -> Seq<char>;

/// Whether every character of a text is ASCII.
pub open spec fn is_ascii_text(s: Seq<char>) -> bool {
    forall|i: int| 0 <= i < s.len() ==> (#[trigger] s[i] as u32) < 0x80
}

/// A text with `A`..`Z` turned into `a`..`z` (`str::to_ascii_lowercase`).
pub open spec fn ascii_lowercase(s: Seq<char>) -> Seq<char> {
    s.map_values(|c: char| ascii_lower(c))
}

/// Lowercases a text.
///
/// Calls `str::to_lowercase`, which maps every character to its Unicode lowercase form (a
/// function of the text alone). The contract names that result without restating the Unicode
/// tables, and states it for ASCII text, where the lowercase form of `A`..`Z` is `a`..`z` and
/// every other character stays as it is.
#[verifier::external_body]
pub(crate) fn to_lowercase(s: &str) -> (r: String)
    ensures
        r@ == lowercase(s@),
        is_ascii_text(s@) ==> r@ == ascii_lowercase(s@),
{
    s.to_lowercase()
}

} // verus!
