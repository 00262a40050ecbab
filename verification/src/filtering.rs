//! Facts about the elements of a sequence that meet a condition.

use vstd::prelude::*;

verus! {

/// An element added at the end is kept exactly if it meets the condition.
pub proof fn lemma_filter_push<A>(s: Seq<A>, x: A, pred: spec_fn(A) -> bool)
    ensures
        s.push(x).filter(pred) == if pred(x) {
            s.filter(pred).push(x)
        } else {
            s.filter(pred)
        },
{
    reveal(Seq::filter);
    assert(s.push(x).drop_last() =~= s);
}

/// An element that does not meet the condition can be put anywhere without
/// changing the elements that do.
pub proof fn lemma_filter_insert_other<A>(s: Seq<A>, at: int, x: A, pred: spec_fn(A) -> bool)
    requires
        0 <= at <= s.len(),
        !pred(x),
    ensures
        s.insert(at, x).filter(pred) == s.filter(pred),
    decreases s.len(),
{
    if at == s.len() {
        assert(s.insert(at, x) =~= s.push(x));
        lemma_filter_push(s, x, pred);
    } else {
        let front = s.drop_last();
        assert(s.insert(at, x) =~= front.insert(at, x).push(s.last()));
        assert(s =~= front.push(s.last()));
        lemma_filter_push(front.insert(at, x), s.last(), pred);
        lemma_filter_push(front, s.last(), pred);
        lemma_filter_insert_other(front, at, x, pred);
    }
}

/// An element that meets the condition, put behind all others that meet it,
/// comes last among them.
pub proof fn lemma_filter_insert_behind<A>(s: Seq<A>, at: int, x: A, pred: spec_fn(A) -> bool)
    requires
        0 <= at <= s.len(),
        pred(x),
        forall|j: int| at <= j < s.len() ==> !pred(s[j]),
    ensures
        s.insert(at, x).filter(pred) == s.filter(pred).push(x),
    decreases s.len(),
{
    if at == s.len() {
        assert(s.insert(at, x) =~= s.push(x));
        lemma_filter_push(s, x, pred);
    } else {
        let front = s.drop_last();
        assert(s.insert(at, x) =~= front.insert(at, x).push(s.last()));
        assert(s =~= front.push(s.last()));
        assert(!pred(s[s.len() - 1]));
        lemma_filter_push(front.insert(at, x), s.last(), pred);
        lemma_filter_push(front, s.last(), pred);
        lemma_filter_insert_behind(front, at, x, pred);
    }
}

/// Where no element meets the condition, none is kept.
pub proof fn lemma_filter_none<A>(s: Seq<A>, pred: spec_fn(A) -> bool)
    requires
        forall|i: int| 0 <= i < s.len() ==> !pred(s[i]),
    ensures
        s.filter(pred) == Seq::<A>::empty(),
    decreases s.len(),
{
    reveal(Seq::filter);
    if s.len() > 0 {
        lemma_filter_none(s.drop_last(), pred);
    }
}

} // verus!
