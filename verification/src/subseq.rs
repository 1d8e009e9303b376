//! Subsequences: `a` occurs in `b` in order, possibly with other elements between. This is how
//! the editing functions state that they only ever insert whole lines.

use vstd::prelude::*;

verus! {

/// `f` places each element of `a` at a position of `b`, in increasing order.
pub open spec fn embeds<A>(a: Seq<A>, b: Seq<A>, f: Seq<int>) -> bool {
    &&& f.len() == a.len()
    &&& forall|i: int| 0 <= i < a.len() ==> 0 <= #[trigger] f[i] < b.len() && a[i] == b[f[i]]
    &&& forall|i: int, j: int| 0 <= i < j < a.len() ==> #[trigger] f[i] < #[trigger] f[j]
}

/// `a` is a subsequence of `b`.
pub open spec fn is_subseq<A>(a: Seq<A>, b: Seq<A>) -> bool {
    exists|f: Seq<int>| embeds(a, b, f)
}

/// A subsequence whose last element differs from the last one of `b` lies within all of `b`
/// but that last one.
pub proof fn lemma_subseq_drop_last<A>(a: Seq<A>, b: Seq<A>)
    requires
        is_subseq(a, b),
        b.len() > 0,
        a.len() > 0 ==> a.last() != b.last(),
    ensures
        is_subseq(a, b.drop_last()),
{
    let f = choose|f: Seq<int>| embeds(a, b, f);
    if a.len() > 0 {
        let la = a.len() - 1;
        assert(0 <= f[la] < b.len() && a[la] == b[f[la]]);
        assert(f[la] != b.len() - 1);
    }
    assert forall|i: int| 0 <= i < a.len() implies 0 <= #[trigger] f[i] < b.drop_last().len() && a[i]
        == b.drop_last()[f[i]] by {
        if i < a.len() - 1 {
            assert(f[i] < f[a.len() - 1]);
        }
    }
    assert(embeds(a, b.drop_last(), f));
}

/// Every sequence is a subsequence of itself.
pub proof fn lemma_subseq_refl<A>(a: Seq<A>)
    ensures
        is_subseq(a, a),
{
    let f = Seq::new(a.len(), |i: int| i);
    assert(embeds(a, a, f));
}

/// Subsequences compose.
pub proof fn lemma_subseq_trans<A>(a: Seq<A>, b: Seq<A>, c: Seq<A>)
    requires
        is_subseq(a, b),
        is_subseq(b, c),
    ensures
        is_subseq(a, c),
{
    let f = choose|f: Seq<int>| embeds(a, b, f);
    let g = choose|g: Seq<int>| embeds(b, c, g);
    let h = Seq::new(a.len(), |i: int| g[f[i]]);
    assert forall|i: int| 0 <= i < a.len() implies 0 <= #[trigger] h[i] < c.len() && a[i]
        == c[h[i]] by {
        assert(0 <= f[i] < b.len());
    }
    assert forall|i: int, j: int| 0 <= i < j < a.len() implies #[trigger] h[i] < #[trigger] h[j] by {
        assert(f[i] < f[j]);
        assert(0 <= f[i] < b.len());
        assert(0 <= f[j] < b.len());
    }
    assert(embeds(a, c, h));
}

/// Subsequences of the parts give a subsequence of the concatenation.
pub proof fn lemma_subseq_concat<A>(a1: Seq<A>, b1: Seq<A>, a2: Seq<A>, b2: Seq<A>)
    requires
        is_subseq(a1, b1),
        is_subseq(a2, b2),
    ensures
        is_subseq(a1 + a2, b1 + b2),
{
    let f1 = choose|f: Seq<int>| embeds(a1, b1, f);
    let f2 = choose|f: Seq<int>| embeds(a2, b2, f);
    let a = a1 + a2;
    let b = b1 + b2;
    let h = Seq::new(
        a.len(),
        |i: int|
            if i < a1.len() {
                f1[i]
            } else {
                f2[i - a1.len()] + b1.len()
            },
    );
    assert forall|i: int| 0 <= i < a.len() implies 0 <= #[trigger] h[i] < b.len() && a[i]
        == b[h[i]] by {
        if i < a1.len() {
            assert(0 <= f1[i] < b1.len());
        } else {
            assert(0 <= f2[i - a1.len()] < b2.len());
        }
    }
    assert forall|i: int, j: int| 0 <= i < j < a.len() implies #[trigger] h[i] < #[trigger] h[j] by {
        if j < a1.len() {
            assert(f1[i] < f1[j]);
        } else if i < a1.len() {
            assert(0 <= f1[i] < b1.len());
            assert(0 <= f2[j - a1.len()]);
        } else {
            assert(f2[i - a1.len()] < f2[j - a1.len()]);
        }
    }
    assert(embeds(a, b, h));
}

/// The empty sequence is a subsequence of anything.
pub proof fn lemma_subseq_empty<A>(b: Seq<A>)
    ensures
        is_subseq(Seq::<A>::empty(), b),
{
    assert(embeds(Seq::<A>::empty(), b, Seq::<int>::empty()));
}

/// A sequence is a subsequence of itself with an element inserted.
pub proof fn lemma_subseq_insert<A>(a: Seq<A>, k: int, x: A)
    requires
        0 <= k <= a.len(),
    ensures
        is_subseq(a, a.insert(k, x)),
{
    let b = a.insert(k, x);
    let f = Seq::new(
        a.len(),
        |i: int|
            if i < k {
                i
            } else {
                i + 1
            },
    );
    assert(embeds(a, b, f));
}

/// A sequence is a subsequence of itself with more elements appended.
pub proof fn lemma_subseq_prefix<A>(a: Seq<A>, extra: Seq<A>)
    ensures
        is_subseq(a, a + extra),
{
    lemma_subseq_refl(a);
    lemma_subseq_empty(extra);
    lemma_subseq_concat(a, a, Seq::<A>::empty(), extra);
    assert(a + Seq::<A>::empty() =~= a);
}

/// A sequence is a subsequence of itself with more elements prepended.
pub proof fn lemma_subseq_suffix<A>(extra: Seq<A>, a: Seq<A>)
    ensures
        is_subseq(a, extra + a),
{
    lemma_subseq_refl(a);
    lemma_subseq_empty(extra);
    lemma_subseq_concat(Seq::<A>::empty(), extra, a, a);
    assert(Seq::<A>::empty() + a =~= a);
}

/// A subsequence holds nothing its supersequence lacks.
pub proof fn lemma_subseq_contains<A>(a: Seq<A>, b: Seq<A>, x: A)
    requires
        is_subseq(a, b),
        a.contains(x),
    ensures
        b.contains(x),
{
    let f = choose|f: Seq<int>| embeds(a, b, f);
    let k = choose|k: int| 0 <= k < a.len() && a[k] == x;
    assert(b[f[k]] == x);
}

} // verus!
