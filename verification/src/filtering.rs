//! Facts about filtered sequences.

use vstd::prelude::*;

verus! {

/// A filtered sequence holds the elements of the sequence that pass the
/// test.
pub proof fn lemma_filter_membership<A>(s: Seq<A>, p: spec_fn(A) -> bool, x: A)
    ensures
        s.filter(p).contains(x) <==> s.contains(x) && p(x),
{
    if s.filter(p).contains(x) {
        s.lemma_filter_contains_rev(p, x);
        let j = choose|j: int| 0 <= j < s.filter(p).len() && s.filter(p)[j] == x;
        s.lemma_filter_pred(p, j);
    }
    if s.contains(x) && p(x) {
        let i = choose|i: int| 0 <= i < s.len() && s[i] == x;
        s.lemma_filter_contains(p, i);
    }
}

/// A test that holds of every element of a sequence filters nothing out.
pub proof fn lemma_filter_all<A>(s: Seq<A>, p: spec_fn(A) -> bool)
    requires
        forall|i: int| 0 <= i < s.len() ==> p(#[trigger] s[i]),
    ensures
        s.filter(p) == s,
    decreases s.len(),
{
    reveal(Seq::filter);
    if s.len() > 0 {
        let front = s.drop_last();
        assert forall|i: int| 0 <= i < front.len() implies p(#[trigger] front[i]) by {
            assert(front[i] == s[i]);
        }
        lemma_filter_all(front, p);
        assert(p(s[s.len() - 1]));
        assert(front.push(s.last()) =~= s);
    }
}

/// Two tests that agree on every element of a sequence filter it alike.
pub proof fn lemma_filter_agree<A>(s: Seq<A>, p: spec_fn(A) -> bool, q: spec_fn(A) -> bool)
    requires
        forall|i: int| 0 <= i < s.len() ==> p(#[trigger] s[i]) == q(s[i]),
    ensures
        s.filter(p) == s.filter(q),
    decreases s.len(),
{
    reveal(Seq::filter);
    if s.len() > 0 {
        let front = s.drop_last();
        assert forall|i: int| 0 <= i < front.len() implies p(#[trigger] front[i]) == q(
            front[i],
        ) by {
            assert(front[i] == s[i]);
        }
        lemma_filter_agree(front, p, q);
        assert(p(s[s.len() - 1]) == q(s[s.len() - 1]));
    }
}

/// Filtering a sequence without repetitions leaves none.
pub proof fn lemma_filter_no_duplicates<A>(s: Seq<A>, pred: spec_fn(A) -> bool)
    requires
        s.no_duplicates(),
    ensures
        s.filter(pred).no_duplicates(),
    decreases s.len(),
{
    reveal(Seq::filter);
    if s.len() > 0 {
        let front = s.drop_last();
        lemma_filter_no_duplicates(front, pred);
        if pred(s.last()) {
            let kept = front.filter(pred);
            assert forall|i: int| 0 <= i < kept.len() implies kept[i] != s.last() by {
                assert(kept.contains(kept[i]));
                front.lemma_filter_contains_rev(pred, kept[i]);
                let j = choose|j: int| 0 <= j < front.len() && front[j] == kept[i];
                assert(s[j] == kept[i]);
            }
        }
    }
}

/// Where a test is given up for one element of a sequence free of
/// repetitions, that element leaves the filtered sequence and nothing else
/// changes.
pub proof fn lemma_filter_without<A>(
    s: Seq<A>,
    p: spec_fn(A) -> bool,
    q: spec_fn(A) -> bool,
    e: A,
)
    requires
        s.no_duplicates(),
        s.contains(e),
        p(e),
        !q(e),
        forall|i: int| 0 <= i < s.len() && s[i] != e ==> p(#[trigger] s[i]) == q(s[i]),
    ensures
        s.filter(p).contains(e),
        s.filter(q) == s.filter(p).remove(s.filter(p).index_of(e)),
    decreases s.len(),
{
    reveal(Seq::filter);
    lemma_filter_no_duplicates(s, p);
    let front = s.drop_last();
    let last = s.last();
    assert forall|i: int| 0 <= i < front.len() implies front[i] == s[i] by {}
    if last == e {
        assert forall|i: int| 0 <= i < front.len() implies p(#[trigger] front[i]) == q(
            front[i],
        ) by {
            assert(front[i] == s[i]);
        }
        lemma_filter_agree(front, p, q);
        let full = s.filter(p);
        assert(full == front.filter(p).push(e));
        assert(full[full.len() - 1] == e);
        assert(full.index_of(e) == full.len() - 1);
        assert(full.remove(full.len() - 1) =~= front.filter(p));
    } else {
        assert(front.contains(e)) by {
            let i = choose|i: int| 0 <= i < s.len() && s[i] == e;
            assert(front[i] == e);
        }
        lemma_filter_without(front, p, q, e);
        let inner = front.filter(p);
        let at = inner.index_of(e);
        assert(0 <= at < inner.len() && inner[at] == e);
        assert(p(last) == q(last));
        if p(last) {
            let full = inner.push(last);
            assert(s.filter(p) == full);
            assert(full[at] == e);
            assert(full.index_of(e) == at);
            assert(full.remove(at) =~= inner.remove(at).push(last));
        }
    }
}

} // verus!
