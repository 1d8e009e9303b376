//! Repository-relative paths, compared the way `std::path::Path` compares them: by their
//! components (so `a//b` equals `a/b`, and `a/b` starts with `a` but `ab/c` does not).

use crate::text::{self, chars_eq, chars_of_strings, lex_less};
use vstd::prelude::*;

verus! {

/// The components of a path, each as text (`std::path::Path::components`).
pub uninterp spec fn path_components(p: Seq<char>) -> Seq<Seq<char>>;

/// The pieces of `p` between `/` characters: one more than there are `/` in it.
pub open spec fn split_slash(p: Seq<char>) -> Seq<Seq<char>>
    decreases p.len(),
{
    if p.len() == 0 {
        seq![seq![]]
    } else {
        let front = split_slash(p.drop_last());
        if p.last() == '/' {
            front.push(seq![])
        } else {
            front.update(front.len() - 1, front.last().push(p.last()))
        }
    }
}

/// Whether `p` is a relative path written with `/` as its only separator: it does not start
/// with `/` and holds no `\\` and no `:` (so no platform reads a root or a prefix in it).
pub open spec fn is_plain_relative(p: Seq<char>) -> bool {
    !(p.len() > 0 && p[0] == '/') && !text::has_char(p, '\\') && !text::has_char(p, ':')
}

/// The components of such a path: its pieces between `/`, without empty ones (repeated and
/// trailing separators) and without `.` ones, except a `.` that the path starts with.
pub open spec fn relative_components(p: Seq<char>) -> Seq<Seq<char>> {
    let parts = split_slash(p);
    let named = parts.filter(|c: Seq<char>| c.len() > 0 && c != "."@);
    if parts[0] == "."@ {
        seq!["."@] + named
    } else {
        named
    }
}

/// The components of `p`.
///
/// Calls `std::path::Path::components`. Its documentation gives the result for a relative path
/// written with `/` alone ([`relative_components`]); for other paths (a root, a platform
/// prefix, `\\` separators) the contract names the result, a function of the path text alone.
#[verifier::external_body]
fn components_of(p: &str) -> (r: Vec<String>)
    ensures
        text::string_views(r@) == path_components(p@),
        is_plain_relative(p@) ==> text::string_views(r@) == relative_components(p@),
{
    std::path::Path::new(p).components().map(|c| c.as_os_str().to_string_lossy().into_owned()).collect()
}

/// Whether two paths are equal (`Path`'s `==`: equal components).
pub open spec fn path_eq(a: Seq<char>, b: Seq<char>) -> bool {
    path_components(a) == path_components(b)
}

/// Whether `base` is a prefix of `p` (`Path::starts_with`: whole components only).
pub open spec fn path_starts_with(p: Seq<char>, base: Seq<char>) -> bool {
    let pc = path_components(p);
    let bc = path_components(base);
    bc.len() <= pc.len() && pc.take(bc.len() as int) == bc
}

/// The order of component kinds: root, `.`, `..`, then ordinary names.
pub open spec fn component_rank(c: Seq<char>) -> int {
    if c == "/"@ {
        0
    } else if c == "."@ {
        1
    } else if c == ".."@ {
        2
    } else {
        3
    }
}

/// The order of components: by kind, then by text.
pub open spec fn component_lt(a: Seq<char>, b: Seq<char>) -> bool {
    component_rank(a) < component_rank(b) || (component_rank(a) == component_rank(b)
        && text::lex_lt(a, b))
}

/// The lexicographic order of component sequences.
pub open spec fn components_lt(x: Seq<Seq<char>>, y: Seq<Seq<char>>) -> bool
    decreases x.len(),
{
    if x.len() == 0 {
        y.len() > 0
    } else if y.len() == 0 {
        false
    } else if x[0] != y[0] {
        component_lt(x[0], y[0])
    } else {
        components_lt(x.drop_first(), y.drop_first())
    }
}

/// The order of paths (`Path`'s `<`: component by component).
pub open spec fn path_lt(a: Seq<char>, b: Seq<char>) -> bool {
    components_lt(path_components(a), path_components(b))
}

/// Components as character vectors.
fn components_chars(p: &str) -> (r: Vec<Vec<char>>)
    ensures
        text::views(r@) == path_components(p@),
        is_plain_relative(p@) ==> path_components(p@) == relative_components(p@),
{
    let c = components_of(p);
    chars_of_strings(&c)
}

/// Whether two paths are equal.
pub fn paths_equal(a: &str, b: &str) -> (r: bool)
    ensures
        r == path_eq(a@, b@),
        is_plain_relative(a@) ==> path_components(a@) == relative_components(a@),
        is_plain_relative(b@) ==> path_components(b@) == relative_components(b@),
{
    let ac = components_chars(a);
    let bc = components_chars(b);
    let ghost av = text::views(ac@);
    let ghost bv = text::views(bc@);
    if ac.len() != bc.len() {
        assert(av.len() != bv.len());
        return false;
    }
    let mut i: usize = 0;
    while i < ac.len()
        invariant
            i <= ac.len(),
            ac.len() == bc.len(),
            av == text::views(ac@),
            bv == text::views(bc@),
            av == path_components(a@),
            bv == path_components(b@),
            is_plain_relative(a@) ==> path_components(a@) == relative_components(a@),
            is_plain_relative(b@) ==> path_components(b@) == relative_components(b@),
            forall|k: int| 0 <= k < i ==> av[k] == bv[k],
        decreases ac.len() - i,
    {
        if !chars_eq(&ac[i], &bc[i]) {
            assert(av[i as int] != bv[i as int]);
            return false;
        }
        i += 1;
    }
    assert(av =~= bv);
    true
}

/// Whether `base` is a prefix of `p`, component-wise.
pub fn path_has_prefix(p: &str, base: &str) -> (r: bool)
    ensures
        r == path_starts_with(p@, base@),
        is_plain_relative(p@) ==> path_components(p@) == relative_components(p@),
        is_plain_relative(base@) ==> path_components(base@) == relative_components(base@),
{
    let pc = components_chars(p);
    let bc = components_chars(base);
    let ghost pv = text::views(pc@);
    let ghost bv = text::views(bc@);
    if bc.len() > pc.len() {
        return false;
    }
    let mut i: usize = 0;
    while i < bc.len()
        invariant
            i <= bc.len(),
            bc.len() <= pc.len(),
            pv == text::views(pc@),
            bv == text::views(bc@),
            pv == path_components(p@),
            bv == path_components(base@),
            is_plain_relative(p@) ==> path_components(p@) == relative_components(p@),
            is_plain_relative(base@) ==> path_components(base@) == relative_components(base@),
            forall|k: int| 0 <= k < i ==> pv[k] == bv[k],
        decreases bc.len() - i,
    {
        if !chars_eq(&pc[i], &bc[i]) {
            assert(pv.take(bv.len() as int)[i as int] != bv[i as int]);
            return false;
        }
        i += 1;
    }
    assert(pv.take(bv.len() as int) =~= bv);
    true
}

/// The kind rank of a component.
fn component_rank_of(c: &[char]) -> (r: u8)
    ensures
        r as int == component_rank(c@),
{
    if chars_eq(c, &text::chars_of("/")) {
        0
    } else if chars_eq(c, &text::chars_of(".")) {
        1
    } else if chars_eq(c, &text::chars_of("..")) {
        2
    } else {
        3
    }
}

/// Whether path `a` sorts before path `b`.
pub fn path_less(a: &str, b: &str) -> (r: bool)
    ensures
        r == path_lt(a@, b@),
        is_plain_relative(a@) ==> path_components(a@) == relative_components(a@),
        is_plain_relative(b@) ==> path_components(b@) == relative_components(b@),
{
    let ac = components_chars(a);
    let bc = components_chars(b);
    let ghost av = text::views(ac@);
    let ghost bv = text::views(bc@);
    let mut i: usize = 0;
    assert(av.skip(0) =~= av);
    assert(bv.skip(0) =~= bv);
    while i < ac.len() && i < bc.len() && chars_eq(&ac[i], &bc[i])
        invariant
            i <= ac.len(),
            i <= bc.len(),
            av == text::views(ac@),
            bv == text::views(bc@),
            components_lt(av, bv) == components_lt(av.skip(i as int), bv.skip(i as int)),
        decreases ac.len() - i,
    {
        assert(av.skip(i as int).drop_first() =~= av.skip(i + 1));
        assert(bv.skip(i as int).drop_first() =~= bv.skip(i + 1));
        i += 1;
    }
    if i == ac.len() {
        i < bc.len()
    } else if i == bc.len() {
        false
    } else {
        assert(av.skip(i as int)[0] == ac@[i as int]@);
        assert(bv.skip(i as int)[0] == bc@[i as int]@);
        let ra = component_rank_of(&ac[i]);
        let rb = component_rank_of(&bc[i]);
        ra < rb || (ra == rb && lex_less(&ac[i], &bc[i]))
    }
}

// ---------------------------------------------------------------------------------------------
// Sorted sets of paths (`BTreeSet<PathBuf>`), keyed by path equality.
// ---------------------------------------------------------------------------------------------

/// The first path at or after `i` equal to `x`.
pub open spec fn find_path(s: Seq<Seq<char>>, x: Seq<char>, i: int) -> Option<int>
    decreases s.len() - i,
{
    if i < 0 || i >= s.len() {
        None
    } else if path_eq(s[i], x) {
        Some(i)
    } else {
        find_path(s, x, i + 1)
    }
}

/// The first position at or after `i` whose path sorts after `x`.
pub open spec fn path_pos(s: Seq<Seq<char>>, x: Seq<char>, i: int) -> int
    decreases s.len() - i,
{
    if i < 0 || i >= s.len() {
        s.len() as int
    } else if path_lt(x, s[i]) {
        i
    } else {
        path_pos(s, x, i + 1)
    }
}

/// Adding `x` to a sorted path set, keeping the element already there if an equal path is
/// present (`BTreeSet::insert`, `BTreeMap::entry`).
pub open spec fn insert_path_first(s: Seq<Seq<char>>, x: Seq<char>) -> Seq<Seq<char>> {
    match find_path(s, x, 0) {
        Some(_) => s,
        None => s.insert(path_pos(s, x, 0), x),
    }
}

/// Adding `x` to a sorted path set, replacing an equal path already there (how collecting an
/// iterator into a `BTreeSet` keeps the last of equal elements).
pub open spec fn insert_path_last(s: Seq<Seq<char>>, x: Seq<char>) -> Seq<Seq<char>> {
    match find_path(s, x, 0) {
        Some(k) => s.update(k, x),
        None => s.insert(path_pos(s, x, 0), x),
    }
}

/// Bounds of [`find_path`].
pub proof fn lemma_find_path(s: Seq<Seq<char>>, x: Seq<char>, i: int)
    requires
        0 <= i,
    ensures
        find_path(s, x, i) matches Some(k) ==> i <= k < s.len() && path_eq(s[k], x),
        find_path(s, x, i) is None ==> forall|k: int| i <= k < s.len() ==> !path_eq(#[trigger] s[k], x),
    decreases s.len() - i,
{
    if i < s.len() && !path_eq(s[i], x) {
        lemma_find_path(s, x, i + 1);
    }
}

/// Bounds of [`path_pos`].
pub proof fn lemma_path_pos(s: Seq<Seq<char>>, x: Seq<char>, i: int)
    requires
        0 <= i <= s.len(),
    ensures
        i <= path_pos(s, x, i) <= s.len(),
    decreases s.len() - i,
{
    if i < s.len() && !path_lt(x, s[i]) {
        lemma_path_pos(s, x, i + 1);
    }
}

/// Whether a path equal to `x` is in `s`.
pub open spec fn has_path(s: Seq<Seq<char>>, x: Seq<char>) -> bool {
    exists|k: int| 0 <= k < s.len() && path_eq(#[trigger] s[k], x)
}

/// Whether no two paths of `s` are equal.
pub open spec fn distinct_paths(s: Seq<Seq<char>>) -> bool {
    forall|i: int, j: int| 0 <= i < j < s.len() ==> !path_eq(#[trigger] s[i], #[trigger] s[j])
}

/// Adding a path to a path set, either way, gives the set with that path, and keeps its
/// paths distinct.
pub proof fn lemma_insert_path(s: Seq<Seq<char>>, x: Seq<char>)
    ensures
        forall|y: Seq<char>|
            #[trigger] has_path(insert_path_last(s, x), y) <==> (path_eq(x, y) || has_path(s, y)),
        forall|y: Seq<char>|
            #[trigger] has_path(insert_path_first(s, x), y) <==> (path_eq(x, y) || has_path(s, y)),
        distinct_paths(s) ==> distinct_paths(insert_path_last(s, x)),
        distinct_paths(s) ==> distinct_paths(insert_path_first(s, x)),
{
    lemma_find_path(s, x, 0);
    match find_path(s, x, 0) {
        Some(k) => {
            let u = s.update(k, x);
            assert forall|y: Seq<char>| #[trigger] has_path(u, y) <==> (path_eq(x, y) || has_path(s, y)) by {
                if has_path(s, y) {
                    let j = choose|j: int| 0 <= j < s.len() && path_eq(#[trigger] s[j], y);
                    assert(path_eq(u[j], y));
                }
                if path_eq(x, y) {
                    assert(path_eq(u[k], y));
                }
                if has_path(u, y) {
                    let j = choose|j: int| 0 <= j < u.len() && path_eq(#[trigger] u[j], y);
                    if j != k {
                        assert(path_eq(s[j], y));
                    }
                }
            }
            assert forall|y: Seq<char>| #[trigger] has_path(s, y) <==> (path_eq(x, y) || has_path(s, y)) by {
                if path_eq(x, y) {
                    assert(path_eq(s[k], y));
                }
            }
            if distinct_paths(s) {
                assert forall|i: int, j: int| 0 <= i < j < u.len() implies !path_eq(#[trigger] u[i], #[trigger] u[j]) by {
                    assert(!path_eq(s[i], s[j]));
                }
            }
        },
        None => {
            let pos = path_pos(s, x, 0);
            lemma_path_pos(s, x, 0);
            let n = s.insert(pos, x);
            assert forall|y: Seq<char>| #[trigger] has_path(n, y) <==> (path_eq(x, y) || has_path(s, y)) by {
                if has_path(s, y) {
                    let j = choose|j: int| 0 <= j < s.len() && path_eq(#[trigger] s[j], y);
                    if j < pos {
                        assert(n[j] == s[j]);
                    } else {
                        assert(n[j + 1] == s[j]);
                    }
                }
                if path_eq(x, y) {
                    assert(path_eq(n[pos], y));
                }
                if has_path(n, y) {
                    let j = choose|j: int| 0 <= j < n.len() && path_eq(#[trigger] n[j], y);
                    if j < pos {
                        assert(path_eq(s[j], y));
                    } else if j > pos {
                        assert(path_eq(s[j - 1], y));
                    }
                }
            }
            if distinct_paths(s) {
                assert forall|i: int, j: int| 0 <= i < j < n.len() implies !path_eq(#[trigger] n[i], #[trigger] n[j]) by {
                    if i == pos {
                        assert(!path_eq(s[j - 1], x));
                    } else if j == pos {
                        assert(!path_eq(s[i], x));
                    } else {
                        let si = if i < pos { i } else { i - 1 };
                        let sj = if j < pos { j } else { j - 1 };
                        assert(n[i] == s[si] && n[j] == s[sj]);
                        assert(!path_eq(s[si], s[sj]));
                    }
                }
            }
        },
    }
}

/// The first path in `s` equal to `x`.
pub fn find_path_index(s: &Vec<String>, x: &str) -> (r: Option<usize>)
    ensures
        match r {
            Some(k) => find_path(text::string_views(s@), x@, 0) == Some(k as int) && k < s.len(),
            None => find_path(text::string_views(s@), x@, 0) is None,
        },
{
    let ghost sv = text::string_views(s@);
    let mut i: usize = 0;
    while i < s.len()
        invariant
            i <= s.len(),
            sv == text::string_views(s@),
            find_path(sv, x@, 0) == find_path(sv, x@, i as int),
        decreases s.len() - i,
    {
        assert(sv[i as int] == s@[i as int]@);
        if paths_equal(s[i].as_str(), x) {
            return Some(i);
        }
        i += 1;
    }
    None
}

/// The first position in `s` whose path sorts after `x`.
pub fn path_position(s: &Vec<String>, x: &str) -> (r: usize)
    ensures
        r as int == path_pos(text::string_views(s@), x@, 0),
        r <= s.len(),
{
    let ghost sv = text::string_views(s@);
    let mut i: usize = 0;
    while i < s.len()
        invariant
            i <= s.len(),
            sv == text::string_views(s@),
            path_pos(sv, x@, 0) == path_pos(sv, x@, i as int),
        decreases s.len() - i,
    {
        assert(sv[i as int] == s@[i as int]@);
        if path_less(x, s[i].as_str()) {
            return i;
        }
        i += 1;
    }
    i
}

/// Adds a path to a sorted path set, keeping an equal path already there.
pub fn add_path_first(s: &mut Vec<String>, x: String)
    ensures
        text::string_views(final(s)@) == insert_path_first(text::string_views(old(s)@), x@),
{
    let ghost sv = text::string_views(s@);
    match find_path_index(s, x.as_str()) {
        Some(_) => {},
        None => {
            let pos = path_position(s, x.as_str());
            let ghost xv = x@;
            s.insert(pos, x);
            assert(text::string_views(s@) =~= sv.insert(pos as int, xv));
        },
    }
}

/// Adds a path to a sorted path set, replacing an equal path already there.
pub fn add_path_last(s: &mut Vec<String>, x: String)
    ensures
        text::string_views(final(s)@) == insert_path_last(text::string_views(old(s)@), x@),
{
    let ghost sv = text::string_views(s@);
    let ghost xv = x@;
    match find_path_index(s, x.as_str()) {
        Some(k) => {
            s.remove(k);
            s.insert(k, x);
            assert(text::string_views(s@) =~= sv.update(k as int, xv));
        },
        None => {
            let pos = path_position(s, x.as_str());
            s.insert(pos, x);
            assert(text::string_views(s@) =~= sv.insert(pos as int, xv));
        },
    }
}

} // verus!
