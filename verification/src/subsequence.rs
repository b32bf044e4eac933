//! Common subsequences of two sequences, and the length of the longest one.

use vstd::prelude::*;

verus! {

/// `idx` picks the elements of `s` out of `a`, in order: one position of `a`
/// per element of `s`, strictly increasing.
pub open spec fn embeds<T>(idx: Seq<int>, s: Seq<T>, a: Seq<T>) -> bool {
    &&& idx.len() == s.len()
    &&& forall|k: int| 0 <= k < idx.len() ==> 0 <= #[trigger] idx[k] < a.len() && a[idx[k]] == s[k]
    &&& forall|k: int, l: int| 0 <= k < l < idx.len() ==> idx[k] < idx[l]
}

/// `s` can be had from `a` by deleting elements.
pub open spec fn is_subsequence<T>(s: Seq<T>, a: Seq<T>) -> bool {
    exists|idx: Seq<int>| embeds(idx, s, a)
}

/// `s` is a subsequence of both `a` and `b`.
pub open spec fn is_common_subsequence<T>(s: Seq<T>, a: Seq<T>, b: Seq<T>) -> bool {
    is_subsequence(s, a) && is_subsequence(s, b)
}

/// `n` is the length of a longest common subsequence of `a` and `b`: some
/// common subsequence has that length and none is longer.
pub open spec fn is_longest_common_length<T>(a: Seq<T>, b: Seq<T>, n: nat) -> bool {
    &&& exists|s: Seq<T>| is_common_subsequence(s, a, b) && s.len() == n
    &&& forall|s: Seq<T>| is_common_subsequence(s, a, b) ==> s.len() <= n
}

/// The length of a longest common subsequence, by the recurrence on the last
/// elements of the two sequences.
pub open spec fn lcs_len<T>(a: Seq<T>, b: Seq<T>) -> nat
    decreases a.len() + b.len(),
{
    if a.len() == 0 || b.len() == 0 {
        0
    } else if a.last() == b.last() {
        lcs_len(a.drop_last(), b.drop_last()) + 1
    } else {
        let up = lcs_len(a.drop_last(), b);
        let left = lcs_len(a, b.drop_last());
        if left >= up {
            left
        } else {
            up
        }
    }
}

/// A common subsequence is no longer than either sequence.
pub proof fn lemma_lcs_len_bounded<T>(a: Seq<T>, b: Seq<T>)
    ensures
        lcs_len(a, b) <= a.len(),
        lcs_len(a, b) <= b.len(),
    decreases a.len() + b.len(),
{
    if a.len() > 0 && b.len() > 0 {
        lemma_lcs_len_bounded(a.drop_last(), b.drop_last());
        lemma_lcs_len_bounded(a.drop_last(), b);
        lemma_lcs_len_bounded(a, b.drop_last());
    }
}

/// The recurrence does not depend on which sequence comes first.
pub proof fn lemma_lcs_len_symmetric<T>(a: Seq<T>, b: Seq<T>)
    ensures
        lcs_len(a, b) == lcs_len(b, a),
    decreases a.len() + b.len(),
{
    if a.len() > 0 && b.len() > 0 {
        lemma_lcs_len_symmetric(a.drop_last(), b.drop_last());
        lemma_lcs_len_symmetric(a.drop_last(), b);
        lemma_lcs_len_symmetric(a, b.drop_last());
    }
}

/// An embedding into a sequence is one into any extension of it.
pub proof fn lemma_embeds_extend<T>(idx: Seq<int>, s: Seq<T>, a: Seq<T>)
    requires
        a.len() > 0,
        embeds(idx, s, a.drop_last()),
    ensures
        embeds(idx, s, a),
{
}

/// An embedding that does not use the last element is one into the rest.
proof fn lemma_embeds_shrink<T>(idx: Seq<int>, s: Seq<T>, a: Seq<T>)
    requires
        a.len() > 0,
        embeds(idx, s, a),
        s.len() == 0 || idx.last() < a.len() - 1,
    ensures
        embeds(idx, s, a.drop_last()),
{
    assert forall|k: int| 0 <= k < idx.len() implies 0 <= #[trigger] idx[k] < a.drop_last().len()
        && a.drop_last()[idx[k]] == s[k] by {
        if k < idx.len() - 1 {
            assert(idx[k] < idx[idx.len() - 1]);
        }
    }
}

/// Without its last element, a non-empty embedded sequence embeds into the
/// sequence without its last element.
proof fn lemma_embeds_drop_last<T>(idx: Seq<int>, s: Seq<T>, a: Seq<T>)
    requires
        s.len() > 0,
        embeds(idx, s, a),
    ensures
        a.len() > 0,
        embeds(idx.drop_last(), s.drop_last(), a.drop_last()),
{
    let last = idx.len() - 1;
    assert(0 <= idx[last] < a.len());
    assert forall|k: int| 0 <= k < idx.drop_last().len() implies 0 <= #[trigger] idx.drop_last()[k]
        < a.drop_last().len() && a.drop_last()[idx.drop_last()[k]] == s.drop_last()[k] by {
        assert(idx[k] < idx[last]);
    }
}

/// Builds a common subsequence whose length is `lcs_len(a, b)`, with the
/// positions of its elements in both sequences.
pub proof fn lemma_lcs_len_attained<T>(a: Seq<T>, b: Seq<T>) -> (w: (Seq<T>, Seq<int>, Seq<int>))
    ensures
        embeds(w.1, w.0, a),
        embeds(w.2, w.0, b),
        w.0.len() == lcs_len(a, b),
    decreases a.len() + b.len(),
{
    if a.len() == 0 || b.len() == 0 {
        (Seq::empty(), Seq::empty(), Seq::empty())
    } else if a.last() == b.last() {
        let (s, ia, ib) = lemma_lcs_len_attained(a.drop_last(), b.drop_last());
        let w = (s.push(a.last()), ia.push(a.len() - 1), ib.push(b.len() - 1));
        assert(embeds(w.1, w.0, a));
        assert(embeds(w.2, w.0, b));
        w
    } else if lcs_len(a, b.drop_last()) >= lcs_len(a.drop_last(), b) {
        let w = lemma_lcs_len_attained(a, b.drop_last());
        lemma_embeds_extend(w.2, w.0, b);
        w
    } else {
        let w = lemma_lcs_len_attained(a.drop_last(), b);
        lemma_embeds_extend(w.1, w.0, a);
        w
    }
}

/// A sequence embedded in both `a` and `b` is no longer than `lcs_len(a, b)`.
pub proof fn lemma_lcs_len_maximal<T>(s: Seq<T>, ia: Seq<int>, ib: Seq<int>, a: Seq<T>, b: Seq<T>)
    requires
        embeds(ia, s, a),
        embeds(ib, s, b),
    ensures
        s.len() <= lcs_len(a, b),
    decreases a.len() + b.len(),
{
    if s.len() > 0 {
        let last = s.len() - 1;
        assert(a[ia[last]] == s[last] && b[ib[last]] == s[last]);
        if a.last() == b.last() {
            lemma_embeds_drop_last(ia, s, a);
            lemma_embeds_drop_last(ib, s, b);
            lemma_lcs_len_maximal(
                s.drop_last(),
                ia.drop_last(),
                ib.drop_last(),
                a.drop_last(),
                b.drop_last(),
            );
        } else if ia.last() < a.len() - 1 {
            lemma_embeds_shrink(ia, s, a);
            lemma_lcs_len_maximal(s, ia, ib, a.drop_last(), b);
        } else {
            lemma_embeds_shrink(ib, s, b);
            lemma_lcs_len_maximal(s, ia, ib, a, b.drop_last());
        }
    }
}

/// The recurrence computes the length of a longest common subsequence.
pub proof fn lemma_lcs_len_is_longest<T>(a: Seq<T>, b: Seq<T>)
    ensures
        is_longest_common_length(a, b, lcs_len(a, b)),
{
    let w = lemma_lcs_len_attained(a, b);
    assert(is_subsequence(w.0, a) && is_subsequence(w.0, b));
    assert forall|s: Seq<T>| is_common_subsequence(s, a, b) implies s.len() <= lcs_len(a, b) by {
        let ia = choose|idx: Seq<int>| embeds(idx, s, a);
        let ib = choose|idx: Seq<int>| embeds(idx, s, b);
        lemma_lcs_len_maximal(s, ia, ib, a, b);
    }
}

/// Dropping the last element of either sequence never lengthens the longest
/// common subsequence.
pub proof fn lemma_lcs_len_monotone<T>(a: Seq<T>, b: Seq<T>)
    ensures
        a.len() > 0 ==> lcs_len(a.drop_last(), b) <= lcs_len(a, b),
        b.len() > 0 ==> lcs_len(a, b.drop_last()) <= lcs_len(a, b),
{
    if a.len() > 0 {
        let w = lemma_lcs_len_attained(a.drop_last(), b);
        lemma_embeds_extend(w.1, w.0, a);
        lemma_lcs_len_maximal(w.0, w.1, w.2, a, b);
    }
    if b.len() > 0 {
        let w = lemma_lcs_len_attained(a, b.drop_last());
        lemma_embeds_extend(w.2, w.0, b);
        lemma_lcs_len_maximal(w.0, w.1, w.2, a, b);
    }
}

} // verus!
