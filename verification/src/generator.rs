//! The sources of triples for the queries of a workload. Each is asked, query
//! by query, for a batch of about as many triples as the query should have.

use crate::filtering::lemma_filter_push;
use crate::random::{entropy_rng, random_below, sample_indices};
use crate::sizes::{sort_indices, strictly_ascending};
use crate::triples::{in_dataset, triples_sorted, CompressedRdfTriples, CompressedTriple};
use rand::rngs::StdRng;
use std::collections::HashSet;
use vstd::prelude::*;
use vstd::seq_lib::lemma_flatten_concat;

verus! {

/// A source of batches of triples.
pub trait TripleGenerator {
    /// The invariant of the source.
    spec fn wf(&self) -> bool;

    /// The triple is one that the source may give.
    spec fn may_emit(&self, triple: CompressedTriple) -> bool;

    /// The source can answer `calls` more calls whose size hints are at most
    /// `max_size_hint`.
    spec fn can_serve(&self, calls: nat, max_size_hint: nat) -> bool;

    /// A source that can answer some calls can answer fewer calls with
    /// smaller size hints.
    proof fn lemma_can_serve_less(&self, calls: nat, max_size_hint: nat, fewer: nat, smaller: nat)
        requires
            self.wf(),
            self.can_serve(calls, max_size_hint),
            fewer <= calls,
            smaller <= max_size_hint,
        ensures
            self.can_serve(fewer, smaller),
    ;

    /// Asked for a batch of `size_hint` triples, the source may give `batch`
    /// and be as `after` from then on.
    spec fn gives(&self, size_hint: usize, batch: Seq<CompressedTriple>, after: &Self) -> bool;

    /// Gives the next batch.
    fn next_batch(&mut self, size_hint: usize) -> (batch: Vec<CompressedTriple>)
        requires
            old(self).wf(),
            old(self).can_serve(1, size_hint as nat),
        ensures
            old(self).gives(size_hint, batch@, final(self)),
            final(self).wf(),
            forall|t: CompressedTriple| final(self).may_emit(t) == old(self).may_emit(t),
            forall|i: int| 0 <= i < batch@.len() ==> old(self).may_emit(#[trigger] batch@[i]),
            forall|calls: nat, max_size_hint: nat|
                calls >= 1 && max_size_hint >= size_hint && #[trigger] old(self).can_serve(
                    calls,
                    max_size_hint,
                ) ==> final(self).can_serve((calls - 1) as nat, max_size_hint),
    ;
}

/// The first `n` elements of a sequence, or all of them where there are fewer.
pub open spec fn first_n<A>(s: Seq<A>, n: nat) -> Seq<A> {
    if n <= s.len() {
        s.subrange(0, n as int)
    } else {
        s
    }
}

/// The triples at the given positions of a dataset, in the order of the positions.
pub open spec fn selection(source: Seq<CompressedTriple>, indices: Seq<usize>) -> Seq<
    CompressedTriple,
> {
    Seq::new(indices.len(), |i: int| source[indices[i] as int])
}

/// `batch` holds triples from distinct positions of `source`, in the order of
/// their positions.
pub open spec fn is_ascending_selection(
    source: Seq<CompressedTriple>,
    batch: Seq<CompressedTriple>,
) -> bool {
    exists|indices: Seq<usize>|
        {
            &&& strictly_ascending(indices)
            &&& forall|i: int| 0 <= i < indices.len() ==> indices[i] < source.len()
            &&& #[trigger] selection(source, indices) == batch
        }
}

/// Copies the triples at the given positions.
pub fn select_triples(
    triples: &CompressedRdfTriples,
    indices: &Vec<usize>,
    from: usize,
    to: usize,
) -> (batch: Vec<CompressedTriple>)
    requires
        from <= to <= indices@.len(),
        forall|i: int| 0 <= i < indices@.len() ==> indices@[i] < triples@.len(),
    ensures
        batch@ == selection(triples@, indices@).subrange(from as int, to as int),
{
    let mut batch: Vec<CompressedTriple> = Vec::with_capacity(to - from);
    let mut i: usize = from;
    while i < to
        invariant
            from <= i <= to <= indices@.len(),
            forall|i: int| 0 <= i < indices@.len() ==> indices@[i] < triples@.len(),
            batch@ == selection(triples@, indices@).subrange(from as int, i as int),
        decreases to - i,
    {
        batch.push(*triples.get(indices[i]));
        i += 1;
        assert(batch@ =~= selection(triples@, indices@).subrange(from as int, i as int));
    }
    batch
}

/// Gives each triple of a random sample of a dataset once: the sample is drawn
/// when the source is made, and the batches are cut from it one after the other.
pub struct RandomDistinctGenerator<'a> {
    triples: &'a CompressedRdfTriples,
    indices: Vec<usize>,
    next: usize,
}

impl<'a> RandomDistinctGenerator<'a> {
    /// The dataset.
    pub closed spec fn source(&self) -> Seq<CompressedTriple> {
        self.triples@
    }

    /// The positions of the sample, in ascending order.
    pub closed spec fn indices(&self) -> Seq<usize> {
        self.indices@
    }

    /// How many triples of the sample have been given.
    pub closed spec fn position(&self) -> nat {
        self.next as nat
    }

    /// The sample: the triples that the source gives over all its batches.
    pub open spec fn planned(&self) -> Seq<CompressedTriple> {
        selection(self.source(), self.indices())
    }

    /// Takes a sample that was drawn before: positions in the dataset, in
    /// strictly ascending order.
    pub fn from_indices(triples: &'a CompressedRdfTriples, indices: Vec<usize>) -> (g: Self)
        requires
            strictly_ascending(indices@),
            forall|i: int| 0 <= i < indices@.len() ==> indices@[i] < triples@.len(),
        ensures
            g.wf(),
            g.source() == triples@,
            g.indices() == indices@,
            g.position() == 0,
    {
        RandomDistinctGenerator { triples, indices, next: 0 }
    }

    /// In a dataset without repeated triples no triple of the sample is
    /// repeated: over all its batches the source gives no triple twice.
    pub proof fn lemma_planned_distinct(&self)
        requires
            self.wf(),
            self.source().no_duplicates(),
        ensures
            self.planned().no_duplicates(),
    {
        let planned = self.planned();
        assert forall|i: int, j: int|
            0 <= i < planned.len() && 0 <= j < planned.len() && i != j implies planned[i]
            != planned[j] by {
            if i < j {
                assert(self.indices()[i] < self.indices()[j]);
            } else {
                assert(self.indices()[j] < self.indices()[i]);
            }
        }
    }
}

impl<'a> TripleGenerator for RandomDistinctGenerator<'a> {
    open spec fn wf(&self) -> bool {
        &&& strictly_ascending(self.indices())
        &&& forall|i: int| 0 <= i < self.indices().len() ==> self.indices()[i] < self.source().len()
        &&& self.position() <= self.indices().len()
    }

    open spec fn may_emit(&self, triple: CompressedTriple) -> bool {
        self.source().contains(triple)
    }

    open spec fn can_serve(&self, calls: nat, max_size_hint: nat) -> bool {
        true
    }

    proof fn lemma_can_serve_less(&self, calls: nat, max_size_hint: nat, fewer: nat, smaller: nat) {
    }

    /// The batch holds the next `size_hint` triples of the sample, or what is
    /// left of it, and the source has moved on by as many.
    open spec fn gives(
        &self,
        size_hint: usize,
        batch: Seq<CompressedTriple>,
        after: &Self,
    ) -> bool {
        &&& after.source() == self.source()
        &&& after.indices() == self.indices()
        &&& after.position() == if self.position() + size_hint <= self.indices().len() {
            self.position() + size_hint
        } else {
            self.indices().len() as int
        }
        &&& batch == self.planned().subrange(self.position() as int, after.position() as int)
    }

    /// Gives the next `size_hint` triples of the sample, or what is left of it.
    fn next_batch(&mut self, size_hint: usize) -> (batch: Vec<CompressedTriple>) {
        let left = self.indices.len() - self.next;
        let count = if size_hint <= left {
            size_hint
        } else {
            left
        };
        let batch = select_triples(self.triples, &self.indices, self.next, self.next + count);
        self.next = self.next + count;
        proof {
            assert forall|i: int| 0 <= i < batch@.len() implies old(self).may_emit(
                #[trigger] batch@[i],
            ) by {
                let at = old(self).position() + i;
                assert(batch@[i] == self.source()[self.indices()[at] as int]);
            }
        }
        batch
    }
}

/// Draws a sample of `n_total_query_triples` triples of a dataset, which the
/// source then gives batch by batch, walking through the dataset once.
pub fn random_distinct_triple_generator<'a>(
    triples: &'a CompressedRdfTriples,
    n_total_query_triples: usize,
) -> (g: RandomDistinctGenerator<'a>)
    requires
        n_total_query_triples <= triples@.len(),
    ensures
        g.wf(),
        g.source() == triples@,
        g.indices().len() == n_total_query_triples,
        g.position() == 0,
{
    let mut rng = entropy_rng();
    let mut indices = sample_indices(&mut rng, triples.len(), n_total_query_triples);
    sort_indices(&mut indices, triples.len());
    RandomDistinctGenerator::from_indices(triples, indices)
}

/// Gives a fresh random sample of a dataset for every batch. A batch holds no
/// position twice, but batches may overlap.
pub struct RandomGenerator<'a> {
    triples: &'a CompressedRdfTriples,
    rng: StdRng,
}

impl<'a> RandomGenerator<'a> {
    /// The dataset.
    pub closed spec fn source(&self) -> Seq<CompressedTriple> {
        self.triples@
    }
}

impl<'a> TripleGenerator for RandomGenerator<'a> {
    open spec fn wf(&self) -> bool {
        true
    }

    open spec fn may_emit(&self, triple: CompressedTriple) -> bool {
        self.source().contains(triple)
    }

    /// A sample cannot be larger than the dataset.
    open spec fn can_serve(&self, calls: nat, max_size_hint: nat) -> bool {
        calls == 0 || max_size_hint <= self.source().len()
    }

    proof fn lemma_can_serve_less(&self, calls: nat, max_size_hint: nat, fewer: nat, smaller: nat) {
    }

    /// The batch holds `size_hint` triples from distinct positions of the
    /// dataset, in the order of their positions.
    open spec fn gives(
        &self,
        size_hint: usize,
        batch: Seq<CompressedTriple>,
        after: &Self,
    ) -> bool {
        &&& after.source() == self.source()
        &&& batch.len() == size_hint
        &&& is_ascending_selection(self.source(), batch)
    }

    /// Gives `size_hint` triples from distinct random positions, in the order
    /// of their positions.
    fn next_batch(&mut self, size_hint: usize) -> (batch: Vec<CompressedTriple>) {
        let mut indices = sample_indices(&mut self.rng, self.triples.len(), size_hint);
        sort_indices(&mut indices, self.triples.len());
        let batch = select_triples(self.triples, &indices, 0, size_hint);
        proof {
            assert(batch@ =~= selection(self.source(), indices@));
            assert forall|i: int| 0 <= i < batch@.len() implies old(self).may_emit(
                #[trigger] batch@[i],
            ) by {
                assert(batch@[i] == self.source()[indices@[i] as int]);
            }
        }
        batch
    }
}

/// Makes a source of random samples of a dataset.
pub fn random_triple_generator<'a>(triples: &'a CompressedRdfTriples) -> (g: RandomGenerator<'a>)
    ensures
        g.wf(),
        g.source() == triples@,
{
    RandomGenerator { triples, rng: entropy_rng() }
}

/// Of a sequence that is long enough, the first `n` elements stay the first
/// `n` whatever follows it.
pub proof fn lemma_first_n_full<A>(a: Seq<A>, b: Seq<A>, n: nat)
    requires
        a.len() >= n,
    ensures
        first_n(a + b, n) == first_n(a, n),
{
    assert(first_n(a + b, n) =~= first_n(a, n));
}

/// The triples of each changeset.
pub open spec fn changeset_views(changesets: Seq<CompressedRdfTriples>) -> Seq<
    Seq<CompressedTriple>,
> {
    changesets.map_values(|changeset: CompressedRdfTriples| changeset@)
}

/// The order in which changesets are visited from a starting point: from
/// there to the last, then from the one before the starting point back to the first.
pub open spec fn visit_order<A>(sets: Seq<A>, start: int) -> Seq<A> {
    sets.subrange(start, sets.len() as int) + sets.subrange(0, start).reverse()
}

/// The batch of a given size: the triples of the changesets, in visiting
/// order, that the dataset has, up to the size asked for.
pub open spec fn fixed_size_batch(
    sets: Seq<Seq<CompressedTriple>>,
    start: int,
    dataset: Seq<CompressedTriple>,
    size_hint: nat,
) -> Seq<CompressedTriple> {
    first_n(visit_order(sets, start).flatten().filter(in_dataset(dataset)), size_hint)
}

/// Cuts batches of the size asked for from a run of changesets, keeping only
/// triples that the dataset has. Every batch starts at the same changeset.
pub struct FixedSizeChangesetGenerator<'c, 'd> {
    changesets: &'c [CompressedRdfTriples],
    dataset: &'d CompressedRdfTriples,
    start_off: usize,
}

impl<'c, 'd> FixedSizeChangesetGenerator<'c, 'd> {
    /// The triples of each changeset.
    pub closed spec fn changesets(&self) -> Seq<Seq<CompressedTriple>> {
        changeset_views(self.changesets@)
    }

    /// The dataset.
    pub closed spec fn dataset(&self) -> Seq<CompressedTriple> {
        self.dataset@
    }

    /// The changeset at which every batch starts.
    pub closed spec fn start(&self) -> int {
        self.start_off as int
    }

    /// Makes a source that starts at a given changeset.
    pub fn starting_at(
        changesets: &'c [CompressedRdfTriples],
        dataset: &'d CompressedRdfTriples,
        start_off: usize,
    ) -> (g: Self)
        requires
            start_off < changesets@.len(),
            triples_sorted(dataset@),
        ensures
            g.wf(),
            g.changesets() == changeset_views(changesets@),
            g.dataset() == dataset@,
            g.start() == start_off,
    {
        FixedSizeChangesetGenerator { changesets, dataset, start_off }
    }
}

impl<'c, 'd> TripleGenerator for FixedSizeChangesetGenerator<'c, 'd> {
    open spec fn wf(&self) -> bool {
        &&& 0 <= self.start() < self.changesets().len()
        &&& triples_sorted(self.dataset())
    }

    open spec fn may_emit(&self, triple: CompressedTriple) -> bool {
        self.dataset().contains(triple)
    }

    open spec fn can_serve(&self, calls: nat, max_size_hint: nat) -> bool {
        true
    }

    proof fn lemma_can_serve_less(&self, calls: nat, max_size_hint: nat, fewer: nat, smaller: nat) {
    }

    /// The batch holds the first `size_hint` triples, in visiting order, that
    /// the dataset has, and the source is as it was.
    open spec fn gives(
        &self,
        size_hint: usize,
        batch: Seq<CompressedTriple>,
        after: &Self,
    ) -> bool {
        &&& after.changesets() == self.changesets()
        &&& after.dataset() == self.dataset()
        &&& after.start() == self.start()
        &&& batch == fixed_size_batch(
            self.changesets(),
            self.start(),
            self.dataset(),
            size_hint as nat,
        )
    }

    /// Gives the first `size_hint` triples, in visiting order, that the
    /// dataset has; fewer where the changesets do not hold as many.
    fn next_batch(&mut self, size_hint: usize) -> (batch: Vec<CompressedTriple>) {
        let n = self.changesets.len();
        let start = self.start_off;
        let ghost sets = self.changesets();
        let ghost order = visit_order(sets, start as int);
        let ghost wanted = in_dataset(self.dataset());
        let mut batch: Vec<CompressedTriple> = Vec::new();
        let mut v: usize = 0;
        proof {
            assert(order.subrange(0, 0).flatten() =~= Seq::<CompressedTriple>::empty());
            crate::filtering::lemma_filter_none(Seq::<CompressedTriple>::empty(), wanted);
        }
        while v < n && batch.len() < size_hint
            invariant
                v <= n,
                n == self.changesets@.len(),
                start == self.start_off,
                start < n,
                sets == self.changesets(),
                order == visit_order(sets, start as int),
                order.len() == n,
                wanted == in_dataset(self.dataset()),
                triples_sorted(self.dataset()),
                batch@ == first_n(
                    order.subrange(0, v as int).flatten().filter(wanted),
                    size_hint as nat,
                ),
            decreases n - v,
        {
            let at = if v < n - start {
                start + v
            } else {
                n - 1 - v
            };
            let changeset = &self.changesets[at];
            let ghost before = order.subrange(0, v as int).flatten();
            proof {
                assert(order[v as int] == changeset@);
                assert(order.subrange(0, v + 1) =~= order.subrange(0, v as int).push(changeset@));
                order.subrange(0, v as int).lemma_flatten_push(changeset@);
                assert(before + changeset@.subrange(0, 0) =~= before);
            }
            let m = changeset.len();
            let mut j: usize = 0;
            while j < m && batch.len() < size_hint
                invariant
                    j <= m,
                    m == changeset@.len(),
                    wanted == in_dataset(self.dataset()),
                    triples_sorted(self.dataset()),
                    batch@ == first_n(
                        (before + changeset@.subrange(0, j as int)).filter(wanted),
                        size_hint as nat,
                    ),
                decreases m - j,
            {
                let triple = changeset.get(j);
                proof {
                    let part = before + changeset@.subrange(0, j as int);
                    assert(before + changeset@.subrange(0, j + 1) =~= part.push(*triple));
                    lemma_filter_push(part, *triple, wanted);
                }
                if self.dataset.contains(triple) {
                    batch.push(*triple);
                    assert(batch@ =~= first_n(
                        (before + changeset@.subrange(0, j + 1)).filter(wanted),
                        size_hint as nat,
                    ));
                }
                j += 1;
            }
            proof {
                let part = before + changeset@.subrange(0, j as int);
                let rest = changeset@.subrange(j as int, m as int);
                assert(before + changeset@ =~= part + rest);
                Seq::filter_distributes_over_add(part, rest, wanted);
                if j < m {
                    lemma_first_n_full(part.filter(wanted), rest.filter(wanted), size_hint as nat);
                } else {
                    assert(part =~= before + changeset@);
                }
            }
            v += 1;
        }
        proof {
            let part = order.subrange(0, v as int);
            let rest = order.subrange(v as int, n as int);
            assert(order =~= part + rest);
            lemma_flatten_concat(part, rest);
            Seq::filter_distributes_over_add(part.flatten(), rest.flatten(), wanted);
            if v < n {
                lemma_first_n_full(
                    part.flatten().filter(wanted),
                    rest.flatten().filter(wanted),
                    size_hint as nat,
                );
            } else {
                assert(part =~= order);
            }
            assert forall|i: int| 0 <= i < batch@.len() implies old(self).may_emit(
                #[trigger] batch@[i],
            ) by {
                let flat = order.flatten();
                assert(batch@[i] == flat.filter(wanted)[i]);
                flat.lemma_filter_pred(wanted, i);
            }
        }
        batch
    }
}

/// Makes a source of batches of fixed size that starts at a changeset chosen
/// at random. The dataset has to be sorted, so that triples can be looked up in it.
pub fn fixed_size_changeset_triple_generator<'c, 'd>(
    changesets: &'c [CompressedRdfTriples],
    dataset: &'d CompressedRdfTriples,
) -> (g: FixedSizeChangesetGenerator<'c, 'd>)
    requires
        changesets@.len() > 0,
        triples_sorted(dataset@),
    ensures
        g.wf(),
        g.changesets() == changeset_views(changesets@),
        g.dataset() == dataset@,
{
    let start_off = random_below(changesets.len());
    FixedSizeChangesetGenerator::starting_at(changesets, dataset, start_off)
}

/// How far a length is from the size asked for.
pub open spec fn distance(len: nat, size_hint: nat) -> nat {
    if len <= size_hint {
        (size_hint - len) as nat
    } else {
        (len - size_hint) as nat
    }
}

/// How many of the first `n` changesets are unused.
pub open spec fn unused_count(used: Set<usize>, n: nat) -> nat
    decreases n,
{
    if n == 0 {
        0
    } else {
        unused_count(used, (n - 1) as nat) + if used.contains((n - 1) as usize) {
            0nat
        } else {
            1nat
        }
    }
}

/// Changeset `c` is unused, no unused changeset is nearer to the size asked
/// for, and none before it is as near.
pub open spec fn is_closest_unused(
    sets: Seq<Seq<CompressedTriple>>,
    used: Set<usize>,
    size_hint: nat,
    c: int,
) -> bool {
    &&& 0 <= c < sets.len()
    &&& !used.contains(c as usize)
    &&& forall|j: int|
        0 <= j < sets.len() && !used.contains(j as usize) ==> distance(sets[c].len(), size_hint)
            <= distance((#[trigger] sets[j]).len(), size_hint)
    &&& forall|j: int|
        0 <= j < c && !used.contains(j as usize) ==> distance(sets[c].len(), size_hint) < distance(
            (#[trigger] sets[j]).len(),
            size_hint,
        )
}

/// The unused changeset whose length is nearest to the size asked for; of
/// several as near, the first.
pub open spec fn closest_unused(
    sets: Seq<Seq<CompressedTriple>>,
    used: Set<usize>,
    size_hint: nat,
) -> int {
    choose|c: int| is_closest_unused(sets, used, size_hint, c)
}

/// There is one closest unused changeset at most.
pub proof fn lemma_closest_unused(
    sets: Seq<Seq<CompressedTriple>>,
    used: Set<usize>,
    size_hint: nat,
    c: int,
)
    requires
        is_closest_unused(sets, used, size_hint, c),
    ensures
        closest_unused(sets, used, size_hint) == c,
{
    let d = closest_unused(sets, used, size_hint);
    assert(is_closest_unused(sets, used, size_hint, d));
    if d < c {
        assert(distance(sets[c].len(), size_hint) < distance(sets[d].len(), size_hint));
        assert(distance(sets[d].len(), size_hint) <= distance(sets[c].len(), size_hint));
    } else if c < d {
        assert(distance(sets[d].len(), size_hint) < distance(sets[c].len(), size_hint));
        assert(distance(sets[c].len(), size_hint) <= distance(sets[d].len(), size_hint));
    }
}

/// Where the count says that a changeset is unused, one is.
pub proof fn lemma_unused_exists(used: Set<usize>, n: nat)
    requires
        n <= usize::MAX,
        unused_count(used, n) > 0,
    ensures
        exists|j: usize| j < n && !used.contains(j),
    decreases n,
{
    if used.contains((n - 1) as usize) {
        lemma_unused_exists(used, (n - 1) as nat);
        let j = choose|j: usize| j < n - 1 && !used.contains(j);
        assert(j < n && !used.contains(j));
    } else {
        let j = (n - 1) as usize;
        assert(j < n && !used.contains(j));
    }
}

/// Using an unused changeset leaves one fewer unused.
pub proof fn lemma_unused_count_after_use(used: Set<usize>, n: nat, c: usize)
    requires
        n <= usize::MAX,
        !used.contains(c),
    ensures
        unused_count(used.insert(c), n) == if c < n {
            (unused_count(used, n) - 1) as nat
        } else {
            unused_count(used, n)
        },
        c < n ==> unused_count(used, n) > 0,
    decreases n,
{
    if n > 0 {
        lemma_unused_count_after_use(used, (n - 1) as nat, c);
    }
}

/// Where nothing is used, everything is unused.
pub proof fn lemma_unused_count_of_none(n: nat)
    ensures
        unused_count(Set::<usize>::empty(), n) == n,
    decreases n,
{
    if n > 0 {
        lemma_unused_count_of_none((n - 1) as nat);
    }
}

/// Gives whole changesets: for each batch the unused changeset whose length is
/// nearest to the size asked for. No changeset is given twice.
pub struct AsIsChangesetGenerator<'c> {
    changesets: &'c [CompressedRdfTriples],
    used: HashSet<usize>,
}

impl<'c> AsIsChangesetGenerator<'c> {
    /// The triples of each changeset.
    pub closed spec fn changesets(&self) -> Seq<Seq<CompressedTriple>> {
        changeset_views(self.changesets@)
    }

    /// The positions of the changesets that have been given.
    pub closed spec fn used(&self) -> Set<usize> {
        self.used@
    }

    /// How many changesets are left.
    pub open spec fn unused(&self) -> nat {
        unused_count(self.used(), self.changesets().len())
    }

    /// Picks the changeset for the next batch and marks it used.
    pub fn choose_changeset(&mut self, size_hint: usize) -> (c: usize)
        requires
            old(self).unused() > 0,
        ensures
            c == closest_unused(old(self).changesets(), old(self).used(), size_hint as nat),
            is_closest_unused(old(self).changesets(), old(self).used(), size_hint as nat, c as int),
            final(self).changesets() == old(self).changesets(),
            final(self).used() == old(self).used().insert(c),
            final(self).unused() == old(self).unused() - 1,
    {
        let n = self.changesets.len();
        let ghost sets = self.changesets();
        let ghost used = self.used@;
        let mut best: usize = 0;
        let mut best_distance: usize = 0;
        let mut found = false;
        let mut i: usize = 0;
        while i < n
            invariant
                i <= n,
                n == self.changesets@.len(),
                sets == self.changesets(),
                used == self.used@,
                found ==> is_closest_unused(
                    sets.subrange(0, i as int),
                    used,
                    size_hint as nat,
                    best as int,
                ) && best_distance == distance(sets[best as int].len(), size_hint as nat),
                !found ==> forall|j: usize| j < i ==> used.contains(j),
            decreases n - i,
        {
            let ghost part = sets.subrange(0, i as int);
            let ghost more = sets.subrange(0, i + 1);
            if !self.used.contains(&i) {
                let len = self.changesets[i].len();
                let here = if len <= size_hint {
                    size_hint - len
                } else {
                    len - size_hint
                };
                assert(sets[i as int] == self.changesets@[i as int]@);
                if !found || here < best_distance {
                    proof {
                        assert forall|j: int|
                            0 <= j < more.len() && !used.contains(j as usize) implies distance(
                            more[i as int].len(),
                            size_hint as nat,
                        ) <= distance((#[trigger] more[j]).len(), size_hint as nat) by {
                            if found && j < i {
                                assert(distance(part[best as int].len(), size_hint as nat)
                                    <= distance(part[j].len(), size_hint as nat));
                            }
                        }
                        assert forall|j: int|
                            0 <= j < i && !used.contains(j as usize) implies distance(
                            more[i as int].len(),
                            size_hint as nat,
                        ) < distance((#[trigger] more[j]).len(), size_hint as nat) by {
                            assert(distance(part[best as int].len(), size_hint as nat) <= distance(
                                part[j].len(),
                                size_hint as nat,
                            ));
                        }
                    }
                    best = i;
                    best_distance = here;
                    found = true;
                } else {
                    proof {
                        assert forall|j: int|
                            0 <= j < more.len() && !used.contains(j as usize) implies distance(
                            more[best as int].len(),
                            size_hint as nat,
                        ) <= distance((#[trigger] more[j]).len(), size_hint as nat) by {
                            if j < i {
                                assert(distance(part[best as int].len(), size_hint as nat)
                                    <= distance(part[j].len(), size_hint as nat));
                            }
                        }
                        assert forall|j: int|
                            0 <= j < best && !used.contains(j as usize) implies distance(
                            more[best as int].len(),
                            size_hint as nat,
                        ) < distance((#[trigger] more[j]).len(), size_hint as nat) by {
                            assert(distance(part[best as int].len(), size_hint as nat) < distance(
                                part[j].len(),
                                size_hint as nat,
                            ));
                        }
                    }
                }
            } else {
                proof {
                    if found {
                        assert forall|j: int|
                            0 <= j < more.len() && !used.contains(j as usize) implies distance(
                            more[best as int].len(),
                            size_hint as nat,
                        ) <= distance((#[trigger] more[j]).len(), size_hint as nat) by {
                            assert(distance(part[best as int].len(), size_hint as nat) <= distance(
                                part[j].len(),
                                size_hint as nat,
                            ));
                        }
                        assert forall|j: int|
                            0 <= j < best && !used.contains(j as usize) implies distance(
                            more[best as int].len(),
                            size_hint as nat,
                        ) < distance((#[trigger] more[j]).len(), size_hint as nat) by {
                            assert(distance(part[best as int].len(), size_hint as nat) < distance(
                                part[j].len(),
                                size_hint as nat,
                            ));
                        }
                    }
                }
            }
            i += 1;
        }
        proof {
            assert(sets.subrange(0, n as int) =~= sets);
            if !found {
                lemma_unused_exists(used, n as nat);
            }
            lemma_closest_unused(sets, used, size_hint as nat, best as int);
            lemma_unused_count_after_use(used, n as nat, best);
        }
        self.used.insert(best);
        best
    }
}

impl<'c> TripleGenerator for AsIsChangesetGenerator<'c> {
    open spec fn wf(&self) -> bool {
        true
    }

    open spec fn may_emit(&self, triple: CompressedTriple) -> bool {
        exists|c: int|
            0 <= c < self.changesets().len() && (#[trigger] self.changesets()[c]).contains(triple)
    }

    /// Each call uses up one changeset.
    open spec fn can_serve(&self, calls: nat, max_size_hint: nat) -> bool {
        calls <= self.unused()
    }

    proof fn lemma_can_serve_less(&self, calls: nat, max_size_hint: nat, fewer: nat, smaller: nat) {
    }

    /// The batch holds all triples of the unused changeset whose length is
    /// nearest to `size_hint`, and that changeset is used from then on.
    open spec fn gives(
        &self,
        size_hint: usize,
        batch: Seq<CompressedTriple>,
        after: &Self,
    ) -> bool {
        let c = closest_unused(self.changesets(), self.used(), size_hint as nat);
        &&& after.changesets() == self.changesets()
        &&& after.used() == self.used().insert(c as usize)
        &&& after.unused() == self.unused() - 1
        &&& batch == self.changesets()[c]
    }

    /// Gives all triples of the unused changeset whose length is nearest to
    /// `size_hint`; of several as near, the first. The batch is not cut to size.
    fn next_batch(&mut self, size_hint: usize) -> (batch: Vec<CompressedTriple>) {
        let c = self.choose_changeset(size_hint);
        let changeset = &self.changesets[c];
        let batch = vstd::slice::slice_to_vec(changeset.as_slice());
        proof {
            assert(self.changesets()[c as int] == changeset@);
            assert forall|i: int| 0 <= i < batch@.len() implies old(self).may_emit(
                #[trigger] batch@[i],
            ) by {
                assert(self.changesets()[c as int].contains(batch@[i]));
            }
        }
        batch
    }
}

/// Makes a source that gives each changeset once, whole.
pub fn as_is_changeset_triple_generator<'c>(changesets: &'c [CompressedRdfTriples]) -> (g:
    AsIsChangesetGenerator<'c>)
    ensures
        g.wf(),
        g.changesets() == changeset_views(changesets@),
        g.used() == Set::<usize>::empty(),
        g.unused() == changesets@.len(),
{
    proof {
        lemma_unused_count_of_none(changesets@.len());
    }
    AsIsChangesetGenerator { changesets, used: HashSet::new() }
}

} // verus!
