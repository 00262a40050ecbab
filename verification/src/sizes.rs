//! Sequences of sizes and indices in ascending order.

use crate::sorting::{merge_sort, TotalOrder};
use vstd::prelude::*;

verus! {

/// No element is smaller than one before it.
pub open spec fn ascending(s: Seq<usize>) -> bool {
    forall|i: int, j: int| 0 <= i <= j < s.len() ==> s[i] <= s[j]
}

/// Every element is greater than the ones before it.
pub open spec fn strictly_ascending(s: Seq<usize>) -> bool {
    forall|i: int, j: int| 0 <= i < j < s.len() ==> s[i] < s[j]
}

/// `sorted` holds the elements of `s`, each as often as `s` does, in ascending order.
pub open spec fn is_sorted_form_of(s: Seq<usize>, sorted: Seq<usize>) -> bool {
    ascending(sorted) && sorted.to_multiset() == s.to_multiset()
}

/// The elements of `s` in ascending order.
pub open spec fn sorted_form(s: Seq<usize>) -> Seq<usize> {
    choose|sorted: Seq<usize>| is_sorted_form_of(s, sorted)
}

impl TotalOrder for usize {
    open spec fn at_most(a: usize, b: usize) -> bool {
        a <= b
    }

    proof fn lemma_connected(a: usize, b: usize) {
    }

    proof fn lemma_transitive(a: usize, b: usize, c: usize) {
    }

    fn not_after(&self, other: &usize) -> (r: bool) {
        *self <= *other
    }
}

/// Two ascending sequences with the same elements, each as often, are the same.
pub proof fn lemma_ascending_unique(a: Seq<usize>, b: Seq<usize>)
    requires
        ascending(a),
        ascending(b),
        a.to_multiset() == b.to_multiset(),
    ensures
        a == b,
    decreases a.len(),
{
    a.to_multiset_ensures();
    b.to_multiset_ensures();
    assert(a.len() == b.len());
    if a.len() == 0 {
        assert(a =~= b);
    } else {
        let x = a.last();
        let y = b.last();
        assert(a.contains(x));
        assert(a.to_multiset().count(x) > 0);
        assert(b.contains(x));
        let j = choose|j: int| 0 <= j < b.len() && b[j] == x;
        assert(b[j] <= b[b.len() - 1]);
        assert(b.contains(y));
        assert(b.to_multiset().count(y) > 0);
        assert(a.contains(y));
        let i = choose|i: int| 0 <= i < a.len() && a[i] == y;
        assert(a[i] <= a[a.len() - 1]);
        assert(x == y);
        let a0 = a.drop_last();
        let b0 = b.drop_last();
        assert(a =~= a0.push(x));
        assert(b =~= b0.push(x));
        assert(a0.to_multiset() =~= a.to_multiset().remove(x)) by {
            a0.to_multiset_ensures();
            assert(a0.push(x).to_multiset() =~= a0.to_multiset().insert(x));
        }
        assert(b0.to_multiset() =~= b.to_multiset().remove(x)) by {
            b0.to_multiset_ensures();
            assert(b0.push(x).to_multiset() =~= b0.to_multiset().insert(x));
        }
        assert(ascending(a0)) by {
            assert forall|i: int, j: int| 0 <= i <= j < a0.len() implies a0[i] <= a0[j] by {
                assert(a[i] <= a[j]);
            }
        }
        assert(ascending(b0)) by {
            assert forall|i: int, j: int| 0 <= i <= j < b0.len() implies b0[i] <= b0[j] by {
                assert(b[i] <= b[j]);
            }
        }
        lemma_ascending_unique(a0, b0);
    }
}

/// A sorted form of a sequence is its one sorted form.
pub proof fn lemma_sorted_form(s: Seq<usize>, sorted: Seq<usize>)
    requires
        is_sorted_form_of(s, sorted),
    ensures
        sorted_form(s) == sorted,
{
    lemma_ascending_unique(sorted_form(s), sorted);
}

/// Sorts a vector of integers into ascending order.
pub fn sort_sizes(sizes: &mut Vec<usize>)
    ensures
        final(sizes)@ == sorted_form(old(sizes)@),
        ascending(final(sizes)@),
        final(sizes)@.to_multiset() == old(sizes)@.to_multiset(),
        final(sizes)@.len() == old(sizes)@.len(),
{
    merge_sort(sizes);
    proof {
        assert(ascending(sizes@)) by {
            assert forall|i: int, j: int| 0 <= i <= j < sizes@.len() implies sizes@[i]
                <= sizes@[j] by {
                if i < j {
                    assert(usize::at_most(sizes@[i], sizes@[j]));
                }
            }
        }
        lemma_sorted_form(old(sizes)@, sizes@);
        sizes@.to_multiset_ensures();
        old(sizes)@.to_multiset_ensures();
    }
}

/// Sorts distinct indices into ascending order.
pub fn sort_indices(indices: &mut Vec<usize>, bound: usize)
    requires
        forall|i: int| 0 <= i < old(indices)@.len() ==> old(indices)@[i] < bound,
        old(indices)@.no_duplicates(),
    ensures
        strictly_ascending(final(indices)@),
        forall|i: int| 0 <= i < final(indices)@.len() ==> final(indices)@[i] < bound,
        final(indices)@.len() == old(indices)@.len(),
        final(indices)@.to_multiset() == old(indices)@.to_multiset(),
{
    sort_sizes(indices);
    proof {
        let before = old(indices)@;
        let after = indices@;
        before.to_multiset_ensures();
        after.to_multiset_ensures();
        before.lemma_multiset_has_no_duplicates();
        after.lemma_multiset_has_no_duplicates_conv();
        assert forall|i: int| 0 <= i < after.len() implies after[i] < bound by {
            assert(after.contains(after[i]));
            assert(after.to_multiset().count(after[i]) > 0);
            assert(before.to_multiset().count(after[i]) > 0);
            assert(before.contains(after[i]));
            let k = choose|k: int| 0 <= k < before.len() && before[k] == after[i];
            assert(before[k] < bound);
        }
        assert forall|i: int, j: int| 0 <= i < j < after.len() implies after[i] < after[j] by {
            assert(after[i] <= after[j]);
            assert(after[i] != after[j]);
        }
    }
}

/// Every sequence has a sorted form.
pub proof fn lemma_sorted_form_exists(s: Seq<usize>)
    ensures
        is_sorted_form_of(s, sorted_form(s)),
{
    let leq = |a: usize, b: usize| a <= b;
    assert(vstd::relations::total_ordering(leq)) by {
        assert(vstd::relations::reflexive(leq));
        assert(vstd::relations::antisymmetric(leq));
        assert(vstd::relations::transitive(leq));
        assert(vstd::relations::strongly_connected(leq));
    }
    s.lemma_sort_by_ensures(leq);
    let sorted = s.sort_by(leq);
    assert(ascending(sorted)) by {
        assert forall|i: int, j: int| 0 <= i <= j < sorted.len() implies sorted[i] <= sorted[j] by {
            if i < j {
                assert(leq(sorted[i], sorted[j]));
            }
        }
    }
    assert(is_sorted_form_of(s, sorted));
}

/// The sorted form of a sequence is as long as the sequence and holds its elements.
pub proof fn lemma_sorted_form_elements(s: Seq<usize>)
    ensures
        sorted_form(s).len() == s.len(),
        forall|i: int| 0 <= i < s.len() ==> s.contains(#[trigger] sorted_form(s)[i]),
{
    lemma_sorted_form_exists(s);
    let sorted = sorted_form(s);
    s.to_multiset_ensures();
    sorted.to_multiset_ensures();
    assert forall|i: int| 0 <= i < s.len() implies s.contains(#[trigger] sorted[i]) by {
        assert(sorted.contains(sorted[i]));
        assert(sorted.to_multiset().count(sorted[i]) > 0);
        assert(s.to_multiset().count(sorted[i]) > 0);
    }
}

} // verus!
