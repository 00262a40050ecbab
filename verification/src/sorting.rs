//! Sorting by merging, for any type with a total order.

use vstd::prelude::*;
use vstd::seq_lib::lemma_multiset_commutative;

verus! {

/// A type whose values stand in a total order.
pub trait TotalOrder: Copy {
    /// `a` does not come after `b`.
    spec fn at_most(a: Self, b: Self) -> bool;

    /// Of two values, one does not come after the other.
    proof fn lemma_connected(a: Self, b: Self)
        ensures
            Self::at_most(a, b) || Self::at_most(b, a),
    ;

    /// What does not come after a value does not come after what follows that value.
    proof fn lemma_transitive(a: Self, b: Self, c: Self)
        requires
            Self::at_most(a, b),
            Self::at_most(b, c),
        ensures
            Self::at_most(a, c),
    ;

    /// Tells whether this value does not come after another.
    fn not_after(&self, other: &Self) -> (r: bool)
        ensures
            r == Self::at_most(*self, *other),
    ;
}

/// No element comes after a later one.
pub open spec fn sorted<T: TotalOrder>(s: Seq<T>) -> bool {
    forall|i: int, j: int| 0 <= i < j < s.len() ==> T::at_most(s[i], s[j])
}

/// Merges two sorted vectors into one.
pub fn merge<T: TotalOrder>(a: &Vec<T>, b: &Vec<T>) -> (out: Vec<T>)
    requires
        sorted(a@),
        sorted(b@),
    ensures
        sorted(out@),
        out@.to_multiset() == a@.to_multiset().add(b@.to_multiset()),
{
    let n = a.len();
    let m = b.len();
    let mut out: Vec<T> = Vec::new();
    let mut i: usize = 0;
    let mut j: usize = 0;
    proof {
        let none = Seq::<T>::empty();
        assert(a@.subrange(0, 0) =~= none);
        assert(b@.subrange(0, 0) =~= none);
        assert(out@ =~= none);
        none.to_multiset_ensures();
        vstd::multiset::lemma_multiset_empty_len(none.to_multiset());
        assert(none.to_multiset() =~= none.to_multiset().add(none.to_multiset()));
    }
    while i < n || j < m
        invariant
            i <= n,
            j <= m,
            n == a@.len(),
            m == b@.len(),
            sorted(a@),
            sorted(b@),
            sorted(out@),
            out@.to_multiset() == a@.subrange(0, i as int).to_multiset().add(
                b@.subrange(0, j as int).to_multiset(),
            ),
            forall|k: int| 0 <= k < out@.len() && i < n ==> T::at_most(out@[k], a@[i as int]),
            forall|k: int| 0 <= k < out@.len() && j < m ==> T::at_most(out@[k], b@[j as int]),
        decreases (n - i) + (m - j),
    {
        let from_a = if i == n {
            false
        } else if j == m {
            true
        } else {
            a[i].not_after(&b[j])
        };
        let ghost before = out@;
        if from_a {
            let x = a[i];
            out.push(x);
            proof {
                assert(a@.subrange(0, i + 1) =~= a@.subrange(0, i as int).push(x));
                vstd::seq_lib::to_multiset_build(before, x);
                vstd::seq_lib::to_multiset_build(a@.subrange(0, i as int), x);
                assert(out@.to_multiset() =~= a@.subrange(0, i + 1).to_multiset().add(
                    b@.subrange(0, j as int).to_multiset(),
                ));
                assert forall|k: int| 0 <= k < out@.len() && i + 1 < n implies T::at_most(
                    out@[k],
                    a@[i + 1],
                ) by {
                    assert(T::at_most(a@[i as int], a@[i + 1]));
                    if k < before.len() {
                        T::lemma_transitive(before[k], a@[i as int], a@[i + 1]);
                    }
                }
            }
            i += 1;
        } else {
            let x = b[j];
            out.push(x);
            proof {
                if i < n {
                    T::lemma_connected(a@[i as int], x);
                }
                assert(b@.subrange(0, j + 1) =~= b@.subrange(0, j as int).push(x));
                vstd::seq_lib::to_multiset_build(before, x);
                vstd::seq_lib::to_multiset_build(b@.subrange(0, j as int), x);
                assert(out@.to_multiset() =~= a@.subrange(0, i as int).to_multiset().add(
                    b@.subrange(0, j + 1).to_multiset(),
                ));
                assert forall|k: int| 0 <= k < out@.len() && j + 1 < m implies T::at_most(
                    out@[k],
                    b@[j + 1],
                ) by {
                    assert(T::at_most(b@[j as int], b@[j + 1]));
                    if k < before.len() {
                        T::lemma_transitive(before[k], b@[j as int], b@[j + 1]);
                    }
                }
            }
            j += 1;
        }
    }
    proof {
        assert(a@.subrange(0, n as int) =~= a@);
        assert(b@.subrange(0, m as int) =~= b@);
    }
    out
}

/// Sorts the elements of a vector between two positions into a new vector.
pub fn sort_range<T: TotalOrder>(v: &Vec<T>, lo: usize, hi: usize) -> (out: Vec<T>)
    requires
        lo <= hi <= v@.len(),
    ensures
        sorted(out@),
        out@.to_multiset() == v@.subrange(lo as int, hi as int).to_multiset(),
    decreases hi - lo,
{
    if hi - lo <= 1 {
        let mut out: Vec<T> = Vec::new();
        if lo < hi {
            out.push(v[lo]);
        }
        assert(out@ =~= v@.subrange(lo as int, hi as int));
        out
    } else {
        let mid = lo + (hi - lo) / 2;
        let left = sort_range(v, lo, mid);
        let right = sort_range(v, mid, hi);
        proof {
            let first = v@.subrange(lo as int, mid as int);
            let second = v@.subrange(mid as int, hi as int);
            assert(v@.subrange(lo as int, hi as int) =~= first + second);
            lemma_multiset_commutative(first, second);
        }
        merge(&left, &right)
    }
}

/// Sorts a vector: afterwards it holds the elements it held before, each as
/// often as before, and none comes after a later one.
pub fn merge_sort<T: TotalOrder>(v: &mut Vec<T>)
    ensures
        sorted(final(v)@),
        final(v)@.to_multiset() == old(v)@.to_multiset(),
        final(v)@.len() == old(v)@.len(),
{
    let out = sort_range(v, 0, v.len());
    proof {
        assert(v@.subrange(0, v@.len() as int) =~= v@);
        out@.to_multiset_ensures();
        v@.to_multiset_ensures();
    }
    *v = out;
}

} // verus!
