//! Searching a sequence for the first element with some property.

use vstd::prelude::*;

verus! {

/// Index of the first element of `s` that satisfies `p`, or `s.len()` when no
/// element does.
pub open spec fn first_index<T>(s: Seq<T>, p: spec_fn(T) -> bool) -> int
    decreases s.len(),
{
    if s.len() == 0 {
        0
    } else if p(s[0]) {
        0
    } else {
        1 + first_index(s.drop_first(), p)
    }
}

/// `first_index` stays within bounds, lands on a match, and skips no match.
pub proof fn lemma_first_index<T>(s: Seq<T>, p: spec_fn(T) -> bool)
    ensures
        0 <= first_index(s, p) <= s.len(),
        first_index(s, p) < s.len() ==> p(s[first_index(s, p)]),
        forall|j: int| 0 <= j < first_index(s, p) ==> !p(#[trigger] s[j]),
    decreases s.len(),
{
    if s.len() > 0 && !p(s[0]) {
        let rest = s.drop_first();
        lemma_first_index(rest, p);
        let r = first_index(rest, p);
        if r < rest.len() {
            assert(s[r + 1] == rest[r]);
        }
        assert forall|j: int| 0 <= j < 1 + r implies !p(#[trigger] s[j]) by {
            if j > 0 {
                assert(s[j] == rest[j - 1]);
            }
        }
    }
}

/// An index whose element matches, and before which nothing matches, is the
/// first index.
pub proof fn lemma_first_index_is<T>(s: Seq<T>, p: spec_fn(T) -> bool, i: int)
    requires
        0 <= i <= s.len(),
        i < s.len() ==> p(s[i]),
        forall|j: int| 0 <= j < i ==> !p(#[trigger] s[j]),
    ensures
        first_index(s, p) == i,
{
    lemma_first_index(s, p);
    let f = first_index(s, p);
    if f < i {
        assert(!p(s[f]));
    } else if i < f {
        assert(!p(s[i]));
    }
}

/// The number of elements of `s` that satisfy `p`.
pub open spec fn count_where<T>(s: Seq<T>, p: spec_fn(T) -> bool) -> nat
    decreases s.len(),
{
    if s.len() == 0 {
        0
    } else {
        count_where(s.drop_last(), p) + if p(s.last()) {
            1nat
        } else {
            0nat
        }
    }
}

/// One if `p` holds of `x`, else zero.
pub open spec fn indicator<T>(p: spec_fn(T) -> bool, x: T) -> int {
    if p(x) {
        1
    } else {
        0
    }
}

/// Replacing one element changes the count by what the old and the new
/// element contribute.
pub proof fn lemma_count_update<T>(s: Seq<T>, p: spec_fn(T) -> bool, i: int, v: T)
    requires
        0 <= i < s.len(),
    ensures
        count_where(s.update(i, v), p) == count_where(s, p) - indicator(p, s[i]) + indicator(p, v),
    decreases s.len(),
{
    let t = s.update(i, v);
    if i == s.len() - 1 {
        assert(t.drop_last() =~= s.drop_last());
    } else {
        assert(t.drop_last() =~= s.drop_last().update(i, v));
        lemma_count_update(s.drop_last(), p, i, v);
    }
}

/// Removing one element lowers the count by what that element contributed.
pub proof fn lemma_count_remove<T>(s: Seq<T>, p: spec_fn(T) -> bool, i: int)
    requires
        0 <= i < s.len(),
    ensures
        count_where(s.remove(i), p) == count_where(s, p) - indicator(p, s[i]),
    decreases s.len(),
{
    let t = s.remove(i);
    if i == s.len() - 1 {
        assert(t =~= s.drop_last());
    } else {
        assert(t.drop_last() =~= s.drop_last().remove(i));
        assert(t.last() == s.last());
        lemma_count_remove(s.drop_last(), p, i);
    }
}

/// Nothing is counted exactly when nothing is found.
pub proof fn lemma_count_none<T>(s: Seq<T>, p: spec_fn(T) -> bool)
    ensures
        count_where(s, p) == 0 <==> first_index(s, p) == s.len(),
        count_where(s, p) <= s.len(),
    decreases s.len(),
{
    lemma_first_index(s, p);
    if s.len() > 0 {
        let head = s.drop_last();
        lemma_count_none(head, p);
        lemma_first_index(head, p);
        let f = first_index(s, p);
        let g = first_index(head, p);
        if g < head.len() {
            assert(p(s[g])) by {
                assert(head[g] == s[g]);
            }
            if f == s.len() {
            } else if g < f {
                assert(!p(s[g]));
            }
        } else {
            assert forall|j: int| 0 <= j < head.len() implies !p(#[trigger] s[j]) by {
                assert(!p(head[j]));
            }
            if p(s.last()) {
                lemma_first_index_is(s, p, s.len() - 1);
            } else {
                lemma_first_index_is(s, p, s.len() as int);
            }
        }
    }
}

} // verus!
