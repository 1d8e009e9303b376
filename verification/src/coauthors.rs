//! Resolving a squash-merge commit's `Co-authored-by:` trailers to GitHub logins.
//!
//! Trailers with a `users.noreply.github.com` address map directly to a login. Others are
//! looked up in an `email -> login` map built from the pull request's own commits; trailers
//! that still cannot be resolved are reported rather than silently dropped.

use crate::numbers;
use crate::text::{
    self, append_chars, chars_eq, chars_of, eq_ignore_case, find_chars, has_prefix, lines_of, rfind_chars,
    string_of, subslice, to_lowercase, trim_chars,
};
use vstd::prelude::*;

verus! {

/// A `Co-authored-by:` trailer parsed from a commit message.
#[derive(Debug, Clone, PartialEq, Eq)]
pub struct CoAuthorTrailer {
    pub name: String,
    pub email: String,
}

/// The model of a [`CoAuthorTrailer`]: its name and email.
pub type TrailerModel = (Seq<char>, Seq<char>);

impl View for CoAuthorTrailer {
    type V = TrailerModel;

    open spec fn view(&self) -> TrailerModel {
        (self.name@, self.email@)
    }
}

/// The models of a sequence of trailers.
pub open spec fn trailer_views(v: Seq<CoAuthorTrailer>) -> Seq<TrailerModel> {
    v.map_values(|t: CoAuthorTrailer| t@)
}

/// What the logic reads of one commit of a pull request (`GET /pulls/{n}/commits`): the
/// logins of the GitHub accounts matched to its author and committer, and the emails of its
/// git author and committer identities.
pub struct PrCommit {
    /// The login of the account matched to the git author, if any.
    pub author_login: Option<String>,
    /// The login of the account matched to the git committer, if any.
    pub committer_login: Option<String>,
    /// The git author's email, if any.
    pub author_email: Option<String>,
    /// The git committer's email, if any.
    pub committer_email: Option<String>,
}

/// The model of a [`PrCommit`].
pub struct CommitModel {
    pub author_login: Option<Seq<char>>,
    pub committer_login: Option<Seq<char>>,
    pub author_email: Option<Seq<char>>,
    pub committer_email: Option<Seq<char>>,
}

/// The view of an optional string.
pub open spec fn opt_view(o: Option<String>) -> Option<Seq<char>> {
    match o {
        Some(s) => Some(s@),
        None => None,
    }
}

impl View for PrCommit {
    type V = CommitModel;

    open spec fn view(&self) -> CommitModel {
        CommitModel {
            author_login: opt_view(self.author_login),
            committer_login: opt_view(self.committer_login),
            author_email: opt_view(self.author_email),
            committer_email: opt_view(self.committer_email),
        }
    }
}

/// The models of a sequence of commits.
pub open spec fn commit_views(v: Seq<PrCommit>) -> Seq<CommitModel> {
    v.map_values(|c: PrCommit| c@)
}

/// The models of an `email -> login` map held as pairs.
pub open spec fn pair_views(v: Seq<(String, String)>) -> Seq<(Seq<char>, Seq<char>)> {
    v.map_values(|p: (String, String)| (p.0@, p.1@))
}

// ---------------------------------------------------------------------------------------------
// Specification.
// ---------------------------------------------------------------------------------------------

/// A `Name <email>` identity parsed out of a trailer value: the text up to the first `<` is the
/// name, the text up to the next `>` the email, both trimmed; an empty email is rejected.
pub open spec fn trailer_identity(value: Seq<char>) -> Option<TrailerModel> {
    match text::find(value, "<"@) {
        None => None,
        Some(start) => match text::find(value.skip(start), ">"@) {
            None => None,
            Some(off) => {
                let end = start + off;
                let email = text::trim(value.subrange(start + 1, end));
                if email.len() == 0 {
                    None
                } else {
                    Some((text::trim(value.take(start)), email))
                }
            },
        },
    }
}

/// The trailer a commit-message line carries, if it is a `Co-authored-by:` (or
/// `co-authored-by:`) line with a valid identity.
pub open spec fn line_trailer(line: Seq<char>) -> Option<TrailerModel> {
    if text::starts_with(line, "Co-authored-by:"@) || text::starts_with(line, "co-authored-by:"@) {
        trailer_identity(text::trim(line.skip(15)))
    } else {
        None
    }
}

/// The trailers of the given lines, in order.
pub open spec fn trailers_of_lines(ls: Seq<Seq<char>>) -> Seq<TrailerModel>
    decreases ls.len(),
{
    if ls.len() == 0 {
        seq![]
    } else {
        trailers_of_lines(ls.drop_last()) + match line_trailer(ls.last()) {
            Some(t) => seq![t],
            None => seq![],
        }
    }
}

/// The `Co-authored-by:` trailers of a commit message, in order.
pub open spec fn trailers(message: Seq<char>) -> Seq<TrailerModel> {
    trailers_of_lines(text::lines(message))
}

/// The login of a `users.noreply.github.com` address (the local part, without the numeric-ID
/// prefix up to its last `+`), or `None` for any other address.
pub open spec fn noreply_login(email: Seq<char>) -> Option<Seq<char>> {
    match text::find(email, "@"@) {
        None => None,
        Some(at) => {
            let local = email.take(at);
            let domain = email.skip(at + 1);
            if !text::eq_ignore_ascii_case(domain, "users.noreply.github.com"@) {
                None
            } else {
                let login = match text::rfind(local, "+"@) {
                    Some(p) => local.skip(p + 1),
                    None => local,
                };
                if login.len() == 0 {
                    None
                } else {
                    Some(login)
                }
            }
        },
    }
}

/// The value of the first pair whose key is `k`.
pub open spec fn map_get(m: Seq<(Seq<char>, Seq<char>)>, k: Seq<char>) -> Option<Seq<char>>
    decreases m.len(),
{
    if m.len() == 0 {
        None
    } else if m[0].0 == k {
        Some(m[0].1)
    } else {
        map_get(m.drop_first(), k)
    }
}

/// The login a trailer resolves to: from its noreply address, else from the map by its
/// lowercased email.
pub open spec fn resolve_one(t: TrailerModel, m: Seq<(Seq<char>, Seq<char>)>) -> Option<Seq<char>> {
    match noreply_login(t.1) {
        Some(l) => Some(l),
        None => map_get(m, text::lowercase(t.1)),
    }
}

/// The logins of the trailers that resolve, in trailer order.
pub open spec fn resolved(ts: Seq<TrailerModel>, m: Seq<(Seq<char>, Seq<char>)>) -> Seq<Seq<char>>
    decreases ts.len(),
{
    if ts.len() == 0 {
        seq![]
    } else {
        resolved(ts.drop_last(), m) + match resolve_one(ts.last(), m) {
            Some(l) => seq![l],
            None => seq![],
        }
    }
}

/// The trailers that do not resolve, in order.
pub open spec fn unresolved(ts: Seq<TrailerModel>, m: Seq<(Seq<char>, Seq<char>)>) -> Seq<
    TrailerModel,
>
    decreases ts.len(),
{
    if ts.len() == 0 {
        seq![]
    } else {
        unresolved(ts.drop_last(), m) + match resolve_one(ts.last(), m) {
            Some(_) => seq![],
            None => seq![ts.last()],
        }
    }
}

/// Every trailer either resolves to a login or is reported as unresolved, in order.
pub proof fn lemma_resolution_partitions(ts: Seq<TrailerModel>, m: Seq<(Seq<char>, Seq<char>)>)
    ensures
        resolved(ts, m).len() + unresolved(ts, m).len() == ts.len(),
        forall|i: int| 0 <= i < unresolved(ts, m).len() ==> resolve_one(#[trigger] unresolved(ts, m)[i], m) is None,
    decreases ts.len(),
{
    if ts.len() > 0 {
        lemma_resolution_partitions(ts.drop_last(), m);
        let u = unresolved(ts.drop_last(), m);
        assert forall|i: int| 0 <= i < unresolved(ts, m).len() implies resolve_one(#[trigger] unresolved(ts, m)[i], m) is None by {
            if i < u.len() {
                assert(unresolved(ts, m)[i] == u[i]);
            }
        }
    }
}

/// Whether some trailer needs the `email -> login` map (its address is not a noreply one).
pub open spec fn needs_lookup(ts: Seq<TrailerModel>) -> bool {
    exists|i: int| 0 <= i < ts.len() && noreply_login(#[trigger] ts[i].1) is None
}

/// The `email -> login` map is needed exactly when some trailer would stay unresolved without
/// it, whatever its position among the trailers.
pub proof fn lemma_needs_lookup_iff_unresolved(ts: Seq<TrailerModel>)
    ensures
        needs_lookup(ts) <==> unresolved(ts, seq![]).len() > 0,
    decreases ts.len(),
{
    if ts.len() > 0 {
        let d = ts.drop_last();
        lemma_needs_lookup_iff_unresolved(d);
        let empty: Seq<(Seq<char>, Seq<char>)> = seq![];
        assert(map_get(empty, text::lowercase(ts.last().1)) is None);
        if needs_lookup(d) {
            let i = choose|i: int| 0 <= i < d.len() && noreply_login(#[trigger] d[i].1) is None;
            assert(ts[i] == d[i]);
        }
        if needs_lookup(ts) {
            let i = choose|i: int| 0 <= i < ts.len() && noreply_login(#[trigger] ts[i].1) is None;
            if i < ts.len() - 1 {
                assert(d[i] == ts[i]);
            }
        }
        if noreply_login(ts.last().1) is None {
            assert(noreply_login(ts[ts.len() - 1].1) is None);
        }
    } else {
        assert(unresolved(ts, seq![]) =~= Seq::<TrailerModel>::empty());
    }
}

/// Whether the map is needed does not depend on the order of the trailers: adding trailers
/// before or after keeps it needed.
pub proof fn lemma_needs_lookup_concat(a: Seq<TrailerModel>, b: Seq<TrailerModel>)
    ensures
        needs_lookup(a + b) <==> needs_lookup(a) || needs_lookup(b),
{
    if needs_lookup(a) {
        let i = choose|i: int| 0 <= i < a.len() && noreply_login(#[trigger] a[i].1) is None;
        assert((a + b)[i] == a[i]);
    }
    if needs_lookup(b) {
        let i = choose|i: int| 0 <= i < b.len() && noreply_login(#[trigger] b[i].1) is None;
        assert((a + b)[a.len() + i] == b[i]);
    }
    if needs_lookup(a + b) {
        let i = choose|i: int| 0 <= i < (a + b).len() && noreply_login(#[trigger] (a + b)[i].1) is None;
        if i < a.len() {
            assert((a + b)[i] == a[i]);
        } else {
            assert((a + b)[i] == b[i - a.len()]);
        }
    }
}

/// The map with `k` set to `v` (`BTreeMap::insert`).
pub open spec fn map_insert(m: Seq<(Seq<char>, Seq<char>)>, k: Seq<char>, v: Seq<char>) -> Seq<
    (Seq<char>, Seq<char>),
>
    decreases m.len(),
{
    if m.len() == 0 {
        seq![(k, v)]
    } else if m[0].0 == k {
        m.update(0, (k, v))
    } else {
        seq![m[0]] + map_insert(m.drop_first(), k, v)
    }
}

/// The map with `k` set to `v` unless `k` is already present (`entry(k).or_insert(v)`).
pub open spec fn map_insert_absent(m: Seq<(Seq<char>, Seq<char>)>, k: Seq<char>, v: Seq<char>) -> Seq<
    (Seq<char>, Seq<char>),
> {
    if map_get(m, k) is Some {
        m
    } else {
        m.push((k, v))
    }
}

/// The map after the author pass over `cs`: each commit with an author account and an author
/// email maps the lowercased email to the account's login, later commits winning.
pub open spec fn author_pass(m: Seq<(Seq<char>, Seq<char>)>, cs: Seq<CommitModel>) -> Seq<
    (Seq<char>, Seq<char>),
>
    decreases cs.len(),
{
    if cs.len() == 0 {
        m
    } else {
        let c = cs.last();
        let prev = author_pass(m, cs.drop_last());
        match (c.author_login, c.author_email) {
            (Some(l), Some(e)) => map_insert(prev, text::lowercase(e), l),
            _ => prev,
        }
    }
}

/// The map after the committer pass over `cs`: each commit with a committer account and a
/// committer email fills in the lowercased email only where no mapping exists yet.
pub open spec fn committer_pass(m: Seq<(Seq<char>, Seq<char>)>, cs: Seq<CommitModel>) -> Seq<
    (Seq<char>, Seq<char>),
>
    decreases cs.len(),
{
    if cs.len() == 0 {
        m
    } else {
        let c = cs.last();
        let prev = committer_pass(m, cs.drop_last());
        match (c.committer_login, c.committer_email) {
            (Some(l), Some(e)) => map_insert_absent(prev, text::lowercase(e), l),
            _ => prev,
        }
    }
}

/// The lowercased-`email -> login` map of a pull request's commits: authors first, then
/// committers where no author mapping exists.
pub open spec fn email_login_map(cs: Seq<CommitModel>) -> Seq<(Seq<char>, Seq<char>)> {
    committer_pass(author_pass(seq![], cs), cs)
}

// ---------------------------------------------------------------------------------------------
// Implementation.
// ---------------------------------------------------------------------------------------------

/// Parses a `Name <email>` identity out of a trailer value.
pub fn parse_trailer_identity(value: &[char]) -> (r: Option<CoAuthorTrailer>)
    ensures
        match r {
            Some(t) => trailer_identity(value@) == Some(t@),
            None => trailer_identity(value@) is None,
        },
{
    let lt = chars_of("<");
    let gt = chars_of(">");
    proof {
        reveal_strlit("<");
        reveal_strlit(">");
    }
    let start = match find_chars(value, &lt) {
        Some(s) => s,
        None => {
            return None;
        },
    };
    proof {
        text::lemma_find_from(value@, lt@, 0);
    }
    let after = subslice(value, start, value.len());
    assert(after@ =~= value@.skip(start as int));
    let off = match find_chars(&after, &gt) {
        Some(o) => o,
        None => {
            return None;
        },
    };
    proof {
        text::lemma_find_from(after@, gt@, 0);
    }
    let end = start + off;
    if off == 0 {
        // `start` holds `<`, so `>` cannot be found there.
        assert(after@[0] == '<');
        assert(after@.subrange(0, 1)[0] == after@[0]);
        assert(false);
        return None;
    }
    let email = trim_chars(&subslice(value, start + 1, end));
    if email.len() == 0 {
        return None;
    }
    let name = trim_chars(&subslice(value, 0, start));
    assert(value@.subrange(0, start as int) =~= value@.take(start as int));
    Some(CoAuthorTrailer { name: string_of(&name), email: string_of(&email) })
}

/// The trailer a commit-message line carries, if any.
fn line_trailer_of(line: &[char]) -> (r: Option<CoAuthorTrailer>)
    ensures
        match r {
            Some(t) => line_trailer(line@) == Some(t@),
            None => line_trailer(line@) is None,
        },
{
    let upper = chars_of("Co-authored-by:");
    let lower = chars_of("co-authored-by:");
    proof {
        reveal_strlit("Co-authored-by:");
        reveal_strlit("co-authored-by:");
    }
    if has_prefix(line, &upper) || has_prefix(line, &lower) {
        let rest = subslice(line, 15, line.len());
        assert(rest@ =~= line@.skip(15));
        parse_trailer_identity(&trim_chars(&rest))
    } else {
        None
    }
}

/// Parses every `Co-authored-by:` trailer in a commit message into its name and email.
pub fn parse_co_author_trailers(commit_message: &str) -> (r: Vec<CoAuthorTrailer>)
    ensures
        trailer_views(r@) == trailers(commit_message@),
{
    let c = chars_of(commit_message);
    let ls = lines_of(&c);
    let ghost lv = text::views(ls@);
    let mut r: Vec<CoAuthorTrailer> = Vec::new();
    let mut i: usize = 0;
    assert(lv.take(0) =~= Seq::<Seq<char>>::empty());
    while i < ls.len()
        invariant
            i <= ls.len(),
            lv == text::views(ls@),
            trailer_views(r@) == trailers_of_lines(lv.take(i as int)),
        decreases ls.len() - i,
    {
        let ghost before = trailer_views(r@);
        assert(lv.take(i + 1).drop_last() =~= lv.take(i as int));
        assert(lv.take(i + 1).last() == ls@[i as int]@);
        match line_trailer_of(&ls[i]) {
            Some(t) => {
                let ghost tv = t@;
                r.push(t);
                assert(trailer_views(r@) =~= before + seq![tv]);
            },
            None => {
                assert(trailer_views(r@) =~= before + Seq::<TrailerModel>::empty());
            },
        }
        i += 1;
    }
    assert(lv.take(ls.len() as int) =~= lv);
    r
}

/// Extracts the login from a `users.noreply.github.com` address (with or without the
/// numeric-ID prefix GitHub adds), or `None` for any other address.
pub fn login_from_noreply(email: &[char]) -> (r: Option<Vec<char>>)
    ensures
        match r {
            Some(l) => noreply_login(email@) == Some(l@),
            None => noreply_login(email@) is None,
        },
{
    let at_sign = chars_of("@");
    let plus = chars_of("+");
    let domain_name = chars_of("users.noreply.github.com");
    proof {
        reveal_strlit("@");
        reveal_strlit("+");
    }
    let at = match find_chars(email, &at_sign) {
        Some(a) => a,
        None => {
            return None;
        },
    };
    proof {
        text::lemma_find_from(email@, at_sign@, 0);
    }
    assert(at + 1 <= email.len());
    let local = subslice(email, 0, at);
    let domain = subslice(email, at + 1, email.len());
    assert(local@ =~= email@.take(at as int));
    assert(domain@ =~= email@.skip(at + 1));
    if !eq_ignore_case(&domain, &domain_name) {
        return None;
    }
    let login = match rfind_chars(&local, &plus) {
        Some(p) => {
            proof {
                text::lemma_rfind_below(local@, plus@, local@.len() as int + 1);
            }
            let l = subslice(&local, p + 1, local.len());
            assert(l@ =~= local@.skip(p + 1));
            l
        },
        None => local,
    };
    if login.len() == 0 {
        None
    } else {
        Some(login)
    }
}

/// Looks up `k` in an `email -> login` map.
pub fn map_lookup(m: &Vec<(String, String)>, k: &[char]) -> (r: Option<Vec<char>>)
    ensures
        match r {
            Some(v) => map_get(pair_views(m@), k@) == Some(v@),
            None => map_get(pair_views(m@), k@) is None,
        },
{
    let ghost mv = pair_views(m@);
    let mut i: usize = 0;
    assert(mv.skip(0) =~= mv);
    while i < m.len()
        invariant
            i <= m.len(),
            mv == pair_views(m@),
            map_get(mv, k@) == map_get(mv.skip(i as int), k@),
        decreases m.len() - i,
    {
        assert(mv.skip(i as int)[0] == (m@[i as int].0@, m@[i as int].1@));
        assert(mv.skip(i as int).drop_first() =~= mv.skip(i + 1));
        if chars_eq(&chars_of(m[i].0.as_str()), k) {
            return Some(chars_of(m[i].1.as_str()));
        }
        i += 1;
    }
    None
}

/// Resolves each trailer to a login, preferring the noreply address and falling back to the
/// pull-request-commit `email -> login` map. Returns the resolved logins (in trailer order) and
/// the trailers that could not be resolved.
pub fn resolve_co_authors(
    trailers: &Vec<CoAuthorTrailer>,
    commit_login_map: &Vec<(String, String)>,
) -> (r: (Vec<String>, Vec<CoAuthorTrailer>))
    ensures
        text::string_views(r.0@) == resolved(trailer_views(trailers@), pair_views(commit_login_map@)),
        trailer_views(r.1@) == unresolved(trailer_views(trailers@), pair_views(commit_login_map@)),
{
    let ghost tv = trailer_views(trailers@);
    let ghost mv = pair_views(commit_login_map@);
    let mut res: Vec<String> = Vec::new();
    let mut unres: Vec<CoAuthorTrailer> = Vec::new();
    let mut i: usize = 0;
    assert(tv.take(0) =~= Seq::<TrailerModel>::empty());
    while i < trailers.len()
        invariant
            i <= trailers.len(),
            tv == trailer_views(trailers@),
            mv == pair_views(commit_login_map@),
            text::string_views(res@) == resolved(tv.take(i as int), mv),
            trailer_views(unres@) == unresolved(tv.take(i as int), mv),
        decreases trailers.len() - i,
    {
        let ghost before_r = text::string_views(res@);
        let ghost before_u = trailer_views(unres@);
        assert(tv.take(i + 1).drop_last() =~= tv.take(i as int));
        assert(tv.take(i + 1).last() == trailers@[i as int]@);
        let email = chars_of(trailers[i].email.as_str());
        match login_from_noreply(&email) {
            Some(login) => {
                res.push(string_of(&login));
                assert(text::string_views(res@) =~= before_r + seq![login@]);
                assert(trailer_views(unres@) =~= before_u + Seq::<TrailerModel>::empty());
            },
            None => {
                let key = to_lowercase(trailers[i].email.as_str());
                match map_lookup(commit_login_map, &chars_of(key.as_str())) {
                    Some(login) => {
                        res.push(string_of(&login));
                        assert(text::string_views(res@) =~= before_r + seq![login@]);
                        assert(trailer_views(unres@) =~= before_u + Seq::<TrailerModel>::empty());
                    },
                    None => {
                        let t = CoAuthorTrailer {
                            name: string_of(&chars_of(trailers[i].name.as_str())),
                            email: string_of(&email),
                        };
                        let ghost t_view = t@;
                        unres.push(t);
                        assert(text::string_views(res@) =~= before_r + Seq::<Seq<char>>::empty());
                        assert(trailer_views(unres@) =~= before_u + seq![t_view]);
                    },
                }
            },
        }
        i += 1;
    }
    assert(tv.take(trailers.len() as int) =~= tv);
    (res, unres)
}

/// Whether some trailer needs the `email -> login` map of the pull request's commits.
pub fn needs_commit_lookup(trailers: &Vec<CoAuthorTrailer>) -> (r: bool)
    ensures
        r == needs_lookup(trailer_views(trailers@)),
{
    let ghost tv = trailer_views(trailers@);
    let mut i: usize = 0;
    while i < trailers.len()
        invariant
            i <= trailers.len(),
            tv == trailer_views(trailers@),
            forall|k: int| 0 <= k < i ==> noreply_login(#[trigger] tv[k].1) is Some,
        decreases trailers.len() - i,
    {
        assert(tv[i as int] == trailers@[i as int]@);
        if login_from_noreply(&chars_of(trailers[i].email.as_str())).is_none() {
            assert(noreply_login(tv[i as int].1) is None);
            return true;
        }
        i += 1;
    }
    false
}

/// Sets `k` to `v` in a map.
fn map_set(m: &mut Vec<(String, String)>, k: String, v: String)
    ensures
        pair_views(final(m)@) == map_insert(pair_views(old(m)@), k@, v@),
{
    let ghost mv = pair_views(m@);
    let mut i: usize = 0;
    while i < m.len()
        invariant
            i <= m.len(),
            mv == pair_views(m@),
            mv == pair_views(old(m)@),
            forall|j: int| 0 <= j < i ==> mv[j].0 != k@,
        decreases m.len() - i,
    {
        assert(mv[i as int] == (m@[i as int].0@, m@[i as int].1@));
        if chars_eq(&chars_of(m[i].0.as_str()), &chars_of(k.as_str())) {
            let ghost kv = k@;
            let ghost vv = v@;
            m.remove(i);
            m.insert(i, (k, v));
            proof {
                lemma_map_insert_at(mv, kv, vv, i as int);
            }
            assert(pair_views(m@) =~= mv.update(i as int, (kv, vv)));
            return;
        }
        i += 1;
    }
    let ghost kv = k@;
    let ghost vv = v@;
    m.push((k, v));
    proof {
        lemma_map_insert_absent_key(mv, kv, vv);
    }
    assert(pair_views(m@) =~= mv.push((kv, vv)));
}

/// Inserting a key found at `i` (and not before) replaces that pair.
proof fn lemma_map_insert_at(
    m: Seq<(Seq<char>, Seq<char>)>,
    k: Seq<char>,
    v: Seq<char>,
    i: int,
)
    requires
        0 <= i < m.len(),
        m[i].0 == k,
        forall|j: int| 0 <= j < i ==> m[j].0 != k,
    ensures
        map_insert(m, k, v) == m.update(i, (k, v)),
    decreases i,
{
    if i > 0 {
        lemma_map_insert_at(m.drop_first(), k, v, i - 1);
        assert(seq![m[0]] + m.drop_first().update(i - 1, (k, v)) =~= m.update(i, (k, v)));
    }
}

/// Inserting an absent key appends the pair.
proof fn lemma_map_insert_absent_key(m: Seq<(Seq<char>, Seq<char>)>, k: Seq<char>, v: Seq<char>)
    requires
        forall|j: int| 0 <= j < m.len() ==> m[j].0 != k,
    ensures
        map_insert(m, k, v) == m.push((k, v)),
    decreases m.len(),
{
    if m.len() > 0 {
        lemma_map_insert_absent_key(m.drop_first(), k, v);
        assert(seq![m[0]] + m.drop_first().push((k, v)) =~= m.push((k, v)));
    }
}

/// Builds a lowercased-`email -> login` map from a pull request's commits. The git author's
/// email maps to the resolved author account; the committer's email fills in only where an
/// author mapping is absent.
pub fn build_email_login_map(commits: &Vec<PrCommit>) -> (r: Vec<(String, String)>)
    ensures
        pair_views(r@) == email_login_map(commit_views(commits@)),
{
    let ghost cv = commit_views(commits@);
    let mut map: Vec<(String, String)> = Vec::new();
    let mut i: usize = 0;
    assert(cv.take(0) =~= Seq::<CommitModel>::empty());
    while i < commits.len()
        invariant
            i <= commits.len(),
            cv == commit_views(commits@),
            pair_views(map@) == author_pass(seq![], cv.take(i as int)),
        decreases commits.len() - i,
    {
        assert(cv.take(i + 1).drop_last() =~= cv.take(i as int));
        assert(cv.take(i + 1).last() == commits@[i as int]@);
        match (&commits[i].author_login, &commits[i].author_email) {
            (Some(login), Some(email)) => {
                let key = to_lowercase(email.as_str());
                map_set(&mut map, key, string_of(&chars_of(login.as_str())));
            },
            _ => {},
        }
        i += 1;
    }
    assert(cv.take(commits.len() as int) =~= cv);
    let ghost after_authors = pair_views(map@);
    let mut j: usize = 0;
    assert(cv.take(0) =~= Seq::<CommitModel>::empty());
    while j < commits.len()
        invariant
            j <= commits.len(),
            cv == commit_views(commits@),
            pair_views(map@) == committer_pass(after_authors, cv.take(j as int)),
        decreases commits.len() - j,
    {
        assert(cv.take(j + 1).drop_last() =~= cv.take(j as int));
        assert(cv.take(j + 1).last() == commits@[j as int]@);
        match (&commits[j].committer_login, &commits[j].committer_email) {
            (Some(login), Some(email)) => {
                let key = to_lowercase(email.as_str());
                if map_lookup(&map, &chars_of(key.as_str())).is_none() {
                    let ghost before = pair_views(map@);
                    let ghost kv = key@;
                    let value = string_of(&chars_of(login.as_str()));
                    let ghost vv = value@;
                    map.push((key, value));
                    assert(pair_views(map@) =~= before.push((kv, vv)));
                }
            },
            _ => {},
        }
        j += 1;
    }
    assert(cv.take(commits.len() as int) =~= cv);
    map
}

/// The warning for a trailer that could not be resolved.
pub open spec fn unresolved_warning(number: u64, t: TrailerModel) -> Seq<char> {
    "warning: PR #"@ + numbers::decimal(number as nat) + ": could not resolve co-author `"@ + t.0
        + " <"@ + t.1 + ">` to a GitHub login; add attribution manually"@
}

/// The warning printed for a trailer of pull request `number` that could not be resolved.
pub fn unresolved_co_author_warning(number: u64, trailer: &CoAuthorTrailer) -> (r: String)
    ensures
        r@ == unresolved_warning(number, trailer@),
{
    let mut r = chars_of("warning: PR #");
    append_chars(&mut r, &numbers::decimal_chars(number));
    append_chars(&mut r, &chars_of(": could not resolve co-author `"));
    append_chars(&mut r, &chars_of(trailer.name.as_str()));
    append_chars(&mut r, &chars_of(" <"));
    append_chars(&mut r, &chars_of(trailer.email.as_str()));
    append_chars(&mut r, &chars_of(">` to a GitHub login; add attribution manually"));
    string_of(&r)
}

} // verus!
