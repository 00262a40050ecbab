//! Compressed triples and the flat files that hold them.

use crate::byte_order::{
    lemma_u64_bytes_round_trip, lemma_u64_of_bytes_round_trip, push_u64, read_u64, u64_bytes,
    u64_of_bytes, ByteOrder,
};
use crate::error::FormatError;
use crate::filtering::lemma_filter_push;
use crate::sorting::{merge_sort, TotalOrder};
use std::collections::HashSet;
use vstd::prelude::*;

verus! {

/// File extension of compressed triple files.
pub const COMPRESSED_TRIPLE_FILE_EXTENSION: &'static str = "compressed_nt";

/// File extension of plain N-Triples files.
pub const UNCOMPRESSED_TRIPLE_FILE_EXTENSION: &'static str = "nt";

/// Identifier of one term.
pub type TripleElementId = u64;

/// Hash of one compressed triple.
pub type TripleId = u64;

/// Subject, predicate and object, each as the bytes of its term.
pub type RawTriple<'a> = [&'a [u8]; 3];

/// Subject, predicate and object, each as the identifier of its term.
pub type CompressedTriple = [TripleElementId; 3];

/// Number of bytes of one stored triple.
pub const TRIPLE_BYTES: usize = 24;

/// `a` comes before `b`, or is `b`: subjects decide, then predicates, then objects.
pub open spec fn triple_le(a: CompressedTriple, b: CompressedTriple) -> bool {
    a[0] < b[0] || (a[0] == b[0] && (a[1] < b[1] || (a[1] == b[1] && a[2] <= b[2])))
}

/// `a` comes strictly before `b`.
pub open spec fn triple_lt(a: CompressedTriple, b: CompressedTriple) -> bool {
    a[0] < b[0] || (a[0] == b[0] && (a[1] < b[1] || (a[1] == b[1] && a[2] < b[2])))
}

/// No triple of `s` comes before an earlier one.
pub open spec fn triples_sorted(s: Seq<CompressedTriple>) -> bool {
    forall|i: int, j: int| 0 <= i <= j < s.len() ==> triple_le(#[trigger] s[i], #[trigger] s[j])
}

/// The 24 bytes that store one triple.
pub open spec fn triple_bytes(t: CompressedTriple, order: ByteOrder) -> Seq<u8> {
    u64_bytes(t[0], order) + u64_bytes(t[1], order) + u64_bytes(t[2], order)
}

/// The bytes of a file that holds the triples of `s`, one after the other.
pub open spec fn triples_bytes(s: Seq<CompressedTriple>, order: ByteOrder) -> Seq<u8>
    decreases s.len(),
{
    if s.len() == 0 {
        Seq::empty()
    } else {
        triples_bytes(s.drop_last(), order) + triple_bytes(s.last(), order)
    }
}

/// The triple that record `i` of a file stores.
pub open spec fn stored_triple(bytes: Seq<u8>, i: int, order: ByteOrder) -> CompressedTriple {
    [
        u64_of_bytes(bytes.subrange(24 * i, 24 * i + 8), order),
        u64_of_bytes(bytes.subrange(24 * i + 8, 24 * i + 16), order),
        u64_of_bytes(bytes.subrange(24 * i + 16, 24 * i + 24), order),
    ]
}

/// The triples that a file of whole records stores.
pub open spec fn stored_triples(bytes: Seq<u8>, order: ByteOrder) -> Seq<CompressedTriple> {
    Seq::new((bytes.len() / 24) as nat, |i: int| stored_triple(bytes, i, order))
}

/// Compares two triples.
pub fn triple_less(a: &CompressedTriple, b: &CompressedTriple) -> (r: bool)
    ensures
        r == triple_lt(*a, *b),
{
    if a[0] != b[0] {
        a[0] < b[0]
    } else if a[1] != b[1] {
        a[1] < b[1]
    } else {
        a[2] < b[2]
    }
}


/// The triples of one compressed file, in the order of the file.
pub struct CompressedRdfTriples {
    triples: Vec<CompressedTriple>,
}

impl View for CompressedRdfTriples {
    type V = Seq<CompressedTriple>;

    closed spec fn view(&self) -> Seq<CompressedTriple> {
        self.triples@
    }
}

impl TotalOrder for CompressedTriple {
    open spec fn at_most(a: CompressedTriple, b: CompressedTriple) -> bool {
        triple_le(a, b)
    }

    proof fn lemma_connected(a: CompressedTriple, b: CompressedTriple) {
    }

    proof fn lemma_transitive(a: CompressedTriple, b: CompressedTriple, c: CompressedTriple) {
    }

    fn not_after(&self, other: &CompressedTriple) -> (r: bool) {
        !triple_less(other, self)
    }
}

impl CompressedRdfTriples {
    /// Takes the triples of a vector, in its order.
    pub fn new(triples: Vec<CompressedTriple>) -> (r: Self)
        ensures
            r@ == triples@,
    {
        CompressedRdfTriples { triples }
    }

    /// Decodes the bytes of a compressed triple file.
    ///
    /// The file is a headerless array of records of 24 bytes, so its size has
    /// to be a multiple of 24.
    pub fn load(bytes: &[u8], order: ByteOrder) -> (r: Result<Self, FormatError>)
        ensures
            match r {
                Ok(file) => bytes@.len() % 24 == 0 && file@ == stored_triples(bytes@, order),
                Err(e) => bytes@.len() % 24 != 0 && e == FormatError::TripleFileSize,
            },
    {
        let size = bytes.len();
        if size % TRIPLE_BYTES != 0 {
            return Err(FormatError::TripleFileSize);
        }
        let n = size / TRIPLE_BYTES;
        let mut triples: Vec<CompressedTriple> = Vec::with_capacity(n);
        let mut i: usize = 0;
        while i < n
            invariant
                i <= n,
                size == bytes@.len(),
                n == size / 24,
                size % 24 == 0,
                triples@ == Seq::new(i as nat, |k: int| stored_triple(bytes@, k, order)),
            decreases n - i,
        {
            let at = i * TRIPLE_BYTES;
            let s = read_u64(bytes, at, order);
            let p = read_u64(bytes, at + 8, order);
            let o = read_u64(bytes, at + 16, order);
            let t: CompressedTriple = [s, p, o];
            assert(t =~= stored_triple(bytes@, i as int, order));
            triples.push(t);
            i += 1;
            assert(triples@ =~= Seq::new(i as nat, |k: int| stored_triple(bytes@, k, order)));
        }
        Ok(CompressedRdfTriples { triples })
    }

    /// Encodes the triples as the bytes of a compressed triple file.
    pub fn to_bytes(&self, order: ByteOrder) -> (bytes: Vec<u8>)
        ensures
            bytes@ == triples_bytes(self@, order),
    {
        let mut bytes: Vec<u8> = Vec::new();
        let n = self.triples.len();
        let mut i: usize = 0;
        while i < n
            invariant
                i <= n,
                n == self.triples@.len(),
                bytes@ == triples_bytes(self.triples@.subrange(0, i as int), order),
            decreases n - i,
        {
            push_triple(&mut bytes, &self.triples[i], order);
            i += 1;
            assert(self.triples@.subrange(0, i as int).drop_last() =~= self.triples@.subrange(
                0,
                i - 1,
            ));
        }
        assert(self.triples@.subrange(0, n as int) =~= self.triples@);
        bytes
    }

    /// Number of triples.
    pub fn len(&self) -> (n: usize)
        ensures
            n == self@.len(),
    {
        self.triples.len()
    }

    /// Tells whether there is no triple.
    pub fn is_empty(&self) -> (r: bool)
        ensures
            r == (self@.len() == 0),
    {
        self.triples.len() == 0
    }

    /// The triple at position `i`.
    pub fn get(&self, i: usize) -> (t: &CompressedTriple)
        requires
            i < self@.len(),
        ensures
            *t == self@[i as int],
    {
        &self.triples[i]
    }

    /// All triples, in the order of the file.
    pub fn as_slice(&self) -> (s: &[CompressedTriple])
        ensures
            s@ == self@,
    {
        self.triples.as_slice()
    }

    /// Tells whether the triples ascend, equal neighbours allowed.
    pub fn is_sorted(&self) -> (r: bool)
        ensures
            r == triples_sorted(self@),
    {
        let n = self.triples.len();
        if n == 0 {
            return true;
        }
        let mut i: usize = 1;
        while i < n
            invariant
                1 <= i <= n,
                n == self.triples@.len(),
                triples_sorted(self.triples@.subrange(0, i as int)),
            decreases n - i,
        {
            if triple_less(&self.triples[i], &self.triples[i - 1]) {
                assert(!triple_le(self.triples@[i - 1], self.triples@[i as int]));
                return false;
            }
            proof {
                let before = self.triples@.subrange(0, i as int);
                let after = self.triples@.subrange(0, i + 1);
                assert forall|a: int, b: int| 0 <= a <= b < after.len() implies triple_le(
                    #[trigger] after[a],
                    #[trigger] after[b],
                ) by {
                    if b < i {
                        assert(triple_le(before[a], before[b]));
                    } else if a < i {
                        assert(triple_le(before[a], before[i - 1]));
                    }
                }
            }
            i += 1;
        }
        assert(self.triples@.subrange(0, n as int) =~= self.triples@);
        true
    }

    /// Looks a triple up by bisection. Only a triple of the file is found; in
    /// a sorted file every triple of the file is found.
    pub fn contains(&self, triple: &CompressedTriple) -> (r: bool)
        ensures
            r ==> self@.contains(*triple),
            triples_sorted(self@) ==> r == self@.contains(*triple),
    {
        let mut lo: usize = 0;
        let mut hi: usize = self.triples.len();
        while lo < hi
            invariant
                lo <= hi <= self.triples@.len(),
                triples_sorted(self.triples@) ==> forall|k: int|
                    0 <= k < lo ==> triple_lt(#[trigger] self.triples@[k], *triple),
                triples_sorted(self.triples@) ==> forall|k: int|
                    hi <= k < self.triples@.len() ==> triple_lt(
                        *triple,
                        #[trigger] self.triples@[k],
                    ),
            decreases hi - lo,
        {
            let mid = lo + (hi - lo) / 2;
            let here = &self.triples[mid];
            if triple_less(here, triple) {
                proof {
                    if triples_sorted(self.triples@) {
                        assert forall|k: int| 0 <= k < mid + 1 implies triple_lt(
                            #[trigger] self.triples@[k],
                            *triple,
                        ) by {
                            assert(triple_le(self.triples@[k], self.triples@[mid as int]));
                        }
                    }
                }
                lo = mid + 1;
            } else if triple_less(triple, here) {
                proof {
                    if triples_sorted(self.triples@) {
                        assert forall|k: int| mid <= k < self.triples@.len() implies triple_lt(
                            *triple,
                            #[trigger] self.triples@[k],
                        ) by {
                            assert(triple_le(self.triples@[mid as int], self.triples@[k]));
                        }
                    }
                }
                hi = mid;
            } else {
                assert(*here =~= *triple);
                assert(self.triples@[mid as int] == *triple);
                return true;
            }
        }
        proof {
            if triples_sorted(self.triples@) {
                assert forall|k: int| 0 <= k < self.triples@.len() implies self.triples@[k]
                    != *triple by {
                    if k < lo {
                        assert(triple_lt(self.triples@[k], *triple));
                    } else {
                        assert(triple_lt(*triple, self.triples@[k]));
                    }
                }
            }
        }
        false
    }

    /// Sorts the triples into ascending order. No triple is added or lost, so
    /// the file keeps its size.
    pub fn sort_in_place(&mut self)
        ensures
            triples_sorted(final(self)@),
            final(self)@.to_multiset() == old(self)@.to_multiset(),
            final(self)@.len() == old(self)@.len(),
    {
        merge_sort(&mut self.triples);
        proof {
            assert forall|i: int, j: int| 0 <= i <= j < self.triples@.len() implies triple_le(
                #[trigger] self.triples@[i],
                #[trigger] self.triples@[j],
            ) by {
                if i < j {
                    assert(CompressedTriple::at_most(self.triples@[i], self.triples@[j]));
                }
            }
        }
    }
}

/// Appends the 24 bytes of one triple to `out`.
pub fn push_triple(out: &mut Vec<u8>, triple: &CompressedTriple, order: ByteOrder)
    ensures
        final(out)@ == old(out)@ + triple_bytes(*triple, order),
{
    push_u64(out, triple[0], order);
    push_u64(out, triple[1], order);
    push_u64(out, triple[2], order);
    assert(out@ =~= old(out)@ + triple_bytes(*triple, order));
}

/// A file of `n` triples has `24 * n` bytes.
pub proof fn lemma_triples_bytes_len(s: Seq<CompressedTriple>, order: ByteOrder)
    ensures
        triples_bytes(s, order).len() == 24 * s.len(),
    decreases s.len(),
{
    if s.len() > 0 {
        lemma_triples_bytes_len(s.drop_last(), order);
        lemma_u64_bytes_round_trip(s.last()[0], order);
        lemma_u64_bytes_round_trip(s.last()[1], order);
        lemma_u64_bytes_round_trip(s.last()[2], order);
    }
}

/// Record `i` of the file of `s` holds the bytes of `s[i]`.
pub proof fn lemma_triples_bytes_record(s: Seq<CompressedTriple>, i: int, order: ByteOrder)
    requires
        0 <= i < s.len(),
    ensures
        triples_bytes(s, order).len() == 24 * s.len(),
        triples_bytes(s, order).subrange(24 * i, 24 * i + 24) == triple_bytes(s[i], order),
    decreases s.len(),
{
    lemma_triples_bytes_len(s, order);
    lemma_triples_bytes_len(s.drop_last(), order);
    let all = triples_bytes(s, order);
    let front = triples_bytes(s.drop_last(), order);
    if i == s.len() - 1 {
        assert(all.subrange(24 * i, 24 * i + 24) =~= triple_bytes(s[i], order));
    } else {
        lemma_triples_bytes_record(s.drop_last(), i, order);
        assert(all.subrange(24 * i, 24 * i + 24) =~= front.subrange(24 * i, 24 * i + 24));
    }
}

/// Decoding the file of `s` gives `s` back.
pub proof fn lemma_stored_triples_of_bytes(s: Seq<CompressedTriple>, order: ByteOrder)
    ensures
        triples_bytes(s, order).len() == 24 * s.len(),
        stored_triples(triples_bytes(s, order), order) == s,
{
    lemma_triples_bytes_len(s, order);
    let bytes = triples_bytes(s, order);
    let back = stored_triples(bytes, order);
    assert(back.len() == s.len());
    assert forall|i: int| 0 <= i < s.len() implies back[i] == s[i] by {
        lemma_triples_bytes_record(s, i, order);
        let rec = bytes.subrange(24 * i, 24 * i + 24);
        let t = s[i];
        lemma_u64_bytes_round_trip(t[0], order);
        lemma_u64_bytes_round_trip(t[1], order);
        lemma_u64_bytes_round_trip(t[2], order);
        assert(bytes.subrange(24 * i, 24 * i + 8) =~= rec.subrange(0, 8));
        assert(bytes.subrange(24 * i + 8, 24 * i + 16) =~= rec.subrange(8, 16));
        assert(bytes.subrange(24 * i + 16, 24 * i + 24) =~= rec.subrange(16, 24));
        assert(rec.subrange(0, 8) =~= u64_bytes(t[0], order));
        assert(rec.subrange(8, 16) =~= u64_bytes(t[1], order));
        assert(rec.subrange(16, 24) =~= u64_bytes(t[2], order));
        assert(back[i] =~= t);
    }
    assert(back =~= s);
}

/// Encoding the triples that a file of whole records stores gives the file back.
pub proof fn lemma_bytes_of_stored_triples(bytes: Seq<u8>, order: ByteOrder)
    requires
        bytes.len() % 24 == 0,
    ensures
        triples_bytes(stored_triples(bytes, order), order) == bytes,
    decreases bytes.len(),
{
    let s = stored_triples(bytes, order);
    if bytes.len() == 0 {
        assert(triples_bytes(s, order) =~= bytes);
    } else {
        let n = s.len() as int;
        let front = bytes.subrange(0, 24 * (n - 1));
        lemma_bytes_of_stored_triples(front, order);
        assert(stored_triples(front, order) =~= s.drop_last()) by {
            assert forall|i: int| 0 <= i < n - 1 implies stored_triple(front, i, order)
                == stored_triple(bytes, i, order) by {
                assert(front.subrange(24 * i, 24 * i + 8) =~= bytes.subrange(24 * i, 24 * i + 8));
                assert(front.subrange(24 * i + 8, 24 * i + 16) =~= bytes.subrange(
                    24 * i + 8,
                    24 * i + 16,
                ));
                assert(front.subrange(24 * i + 16, 24 * i + 24) =~= bytes.subrange(
                    24 * i + 16,
                    24 * i + 24,
                ));
            }
        }
        let at = 24 * (n - 1);
        let t = s.last();
        lemma_u64_of_bytes_round_trip(bytes.subrange(at, at + 8), order);
        lemma_u64_of_bytes_round_trip(bytes.subrange(at + 8, at + 16), order);
        lemma_u64_of_bytes_round_trip(bytes.subrange(at + 16, at + 24), order);
        assert(triple_bytes(t, order) =~= bytes.subrange(at, at + 24));
        assert(triples_bytes(s, order) =~= bytes);
    }
}

/// The condition of being a triple of a dataset.
pub open spec fn in_dataset(dataset: Seq<CompressedTriple>) -> spec_fn(CompressedTriple) -> bool {
    |triple: CompressedTriple| dataset.contains(triple)
}

/// The identifiers that stand at one position of the triples: 0 for
/// subjects, 1 for predicates, 2 for objects.
pub open spec fn terms_at(triples: Seq<CompressedTriple>, position: int) -> Set<TripleElementId> {
    Set::new(
        |id: TripleElementId|
            exists|i: int| 0 <= i < triples.len() && (#[trigger] triples[i])[position] == id,
    )
}

/// How many triples a file has, and how many different subjects, predicates and objects.
#[derive(Clone, Copy, Debug, PartialEq, Eq, Structural)]
pub struct TripleStats {
    pub triples: usize,
    pub subjects: usize,
    pub predicates: usize,
    pub objects: usize,
}

/// The set of identifiers at a position grows by the identifier of a new triple.
proof fn lemma_terms_at_push(
    triples: Seq<CompressedTriple>,
    triple: CompressedTriple,
    position: int,
)
    ensures
        terms_at(triples.push(triple), position) == terms_at(triples, position).insert(
            triple[position],
        ),
{
    let longer = triples.push(triple);
    assert forall|id: TripleElementId|
        terms_at(longer, position).contains(id) <==> terms_at(triples, position).insert(
            triple[position],
        ).contains(id) by {
        if terms_at(longer, position).contains(id) {
            let i = choose|i: int| 0 <= i < longer.len() && (#[trigger] longer[i])[position] == id;
            if i < triples.len() {
                assert(triples[i][position] == id);
            }
        }
        if terms_at(triples, position).contains(id) {
            let i = choose|i: int|
                0 <= i < triples.len() && (#[trigger] triples[i])[position] == id;
            assert(longer[i][position] == id);
        }
        if id == triple[position] {
            assert(longer[triples.len() as int][position] == id);
        }
    }
    assert(terms_at(longer, position) =~= terms_at(triples, position).insert(triple[position]));
}

impl CompressedRdfTriples {
    /// Counts the triples, and the different subjects, predicates and objects.
    pub fn stats(&self) -> (r: TripleStats)
        ensures
            r.triples == self@.len(),
            r.subjects == terms_at(self@, 0).len(),
            r.predicates == terms_at(self@, 1).len(),
            r.objects == terms_at(self@, 2).len(),
    {
        let mut subjects: HashSet<TripleElementId> = HashSet::new();
        let mut predicates: HashSet<TripleElementId> = HashSet::new();
        let mut objects: HashSet<TripleElementId> = HashSet::new();
        let n = self.triples.len();
        let mut i: usize = 0;
        proof {
            assert(terms_at(self.triples@.subrange(0, 0), 0) =~= Set::empty());
            assert(terms_at(self.triples@.subrange(0, 0), 1) =~= Set::empty());
            assert(terms_at(self.triples@.subrange(0, 0), 2) =~= Set::empty());
        }
        while i < n
            invariant
                i <= n,
                n == self.triples@.len(),
                subjects@ == terms_at(self.triples@.subrange(0, i as int), 0),
                predicates@ == terms_at(self.triples@.subrange(0, i as int), 1),
                objects@ == terms_at(self.triples@.subrange(0, i as int), 2),
            decreases n - i,
        {
            let triple = &self.triples[i];
            proof {
                let part = self.triples@.subrange(0, i as int);
                assert(self.triples@.subrange(0, i + 1) =~= part.push(*triple));
                lemma_terms_at_push(part, *triple, 0);
                lemma_terms_at_push(part, *triple, 1);
                lemma_terms_at_push(part, *triple, 2);
            }
            subjects.insert(triple[0]);
            predicates.insert(triple[1]);
            objects.insert(triple[2]);
            i += 1;
        }
        assert(self.triples@.subrange(0, n as int) =~= self.triples@);
        TripleStats {
            triples: n,
            subjects: subjects.len(),
            predicates: predicates.len(),
            objects: objects.len(),
        }
    }

    /// Counts the triples of `other` that are found in this file by
    /// bisection. Only triples of this file are counted; where this file is
    /// sorted, all of them are.
    pub fn count_contained(&self, other: &CompressedRdfTriples) -> (count: usize)
        ensures
            count <= other@.filter(in_dataset(self@)).len(),
            triples_sorted(self@) ==> count == other@.filter(in_dataset(self@)).len(),
            count <= other@.len(),
    {
        let n = other.triples.len();
        let mut count: usize = 0;
        let mut i: usize = 0;
        proof {
            crate::filtering::lemma_filter_none(other.triples@.subrange(0, 0), in_dataset(self@));
        }
        while i < n
            invariant
                i <= n,
                n == other.triples@.len(),
                count <= i,
                count <= other.triples@.subrange(0, i as int).filter(in_dataset(self@)).len(),
                triples_sorted(self@) ==> count == other.triples@.subrange(0, i as int).filter(
                    in_dataset(self@),
                ).len(),
            decreases n - i,
        {
            let triple = &other.triples[i];
            proof {
                let part = other.triples@.subrange(0, i as int);
                assert(other.triples@.subrange(0, i + 1) =~= part.push(*triple));
                lemma_filter_push(part, *triple, in_dataset(self@));
            }
            if self.contains(triple) {
                count += 1;
            }
            i += 1;
        }
        assert(other.triples@.subrange(0, n as int) =~= other.triples@);
        count
    }
}

} // verus!
