//! SPARQL update workloads: what a workload is made of, and how its queries
//! are generated from a source of triples or replicated from compressed files.

use crate::decompressor::{decompressed_all, RdfTripleDecompressor};
use crate::filtering::{lemma_filter_none, lemma_filter_push};
use crate::generator::TripleGenerator;
use crate::ordering::{
    expand_query_specs, expanded, is_order_of, lemma_max_slot_size, lemma_order_keeps_bounds,
    max_slot_size, order_slots,
};
use crate::query_text::{
    prepare_text, queries_text, query_models, size_mismatches, workload_ntriples,
    write_ntriples_file, write_update_data_queries, Query, QueryModel, QueryOutput,
};
use crate::triples::{triples_sorted, CompressedRdfTriples, CompressedTriple};
use vstd::prelude::*;

verus! {

/// The order in which the queries of a workload are written.
#[derive(Clone, Copy, Debug, PartialEq, Eq, Structural)]
pub enum OutputOrder {
    /// As the query specs list them.
    AsSpecified,
    /// Shuffled.
    Randomized,
    /// By size, smallest first; queries of one size keep their order.
    SortedSizeAsc,
    /// By size, largest first; queries of one size keep their order.
    SortedSizeDesc,
    /// Insertions and deletions in turn, each kind by size, smallest first.
    SortedSizeAscAlternateInsertDelete,
}

/// What a query does with its triples.
#[derive(Clone, Copy, Debug, PartialEq, Eq, Structural)]
pub enum QueryType {
    /// `INSERT DATA`.
    InsertData,
    /// `DELETE DATA`.
    DeleteData,
}

/// One query to come: how many triples it should have, and what it does with them.
pub type QuerySlot = (usize, QueryType);

/// A run of queries of one kind and one size.
#[derive(Clone, Copy, Debug, PartialEq, Eq, Structural)]
pub struct QuerySpec {
    pub n_queries: usize,
    pub n_triples_per_query: usize,
    pub query_type: QueryType,
}

/// What can keep a workload from being written.
#[derive(Clone, Copy, Debug, PartialEq, Eq, Structural)]
pub enum QueryError {
    /// Insertions and deletions cannot take turns in an odd number of queries.
    OddNumberOfQueries,
}

/// How the triples of an insertion are written a second time, for the file
/// that prepares or undoes the workload.
#[derive(Clone, Copy, Debug, PartialEq, Eq, Structural)]
pub enum OutputFormat {
    /// As a `DELETE DATA` query.
    Query,
    /// As lines of N-Triples.
    NTriples,
}

/// The queries that slots and batches make: query `i` is of the kind of slot
/// `i`, was asked to have the size of slot `i`, and has the triples of batch
/// `i`, resolved by the dictionary.
pub open spec fn planned_queries(
    slots: Seq<QuerySlot>,
    batches: Seq<Seq<CompressedTriple>>,
    dictionary: Map<u64, Seq<u8>>,
) -> Seq<QueryModel> {
    Seq::new(
        slots.len(),
        |i: int|
            QueryModel {
                query_type: slots[i].1,
                expected_size: Some(slots[i].0),
                triples: decompressed_all(dictionary, batches[i]),
            },
    )
}

/// `out` is what the queries write.
pub open spec fn is_output_of(
    out: QueryOutput,
    queries: Seq<QueryModel>,
    prepare_format: Option<OutputFormat>,
) -> bool {
    &&& out.query@ == queries_text(queries)
    &&& out.prepare@ == prepare_text(queries, prepare_format)
    &&& out.mismatches@ == size_mismatches(queries)
}

/// `out` is what a workload writes whose slots got the batches `batches`
/// from a source that may give the triples that `may_emit` describes.
pub open spec fn is_workload_output(
    out: QueryOutput,
    slots: Seq<QuerySlot>,
    batches: Seq<Seq<CompressedTriple>>,
    dictionary: Map<u64, Seq<u8>>,
    prepare_format: OutputFormat,
) -> bool {
    &&& batches.len() == slots.len()
    &&& is_output_of(out, planned_queries(slots, batches, dictionary), Some(prepare_format))
}

/// Every triple of every batch is one that the source may give.
pub open spec fn all_from<G: TripleGenerator>(
    generator: &G,
    batches: Seq<Seq<CompressedTriple>>,
) -> bool {
    forall|i: int, j: int|
        0 <= i < batches.len() && 0 <= j < batches[i].len() ==> generator.may_emit(
            #[trigger] batches[i][j],
        )
}

/// A run of a source over slots: the source goes through `states`, one
/// after each call, and asked with the size of slot `k` it gives batch `k`.
pub open spec fn is_run_of<G: TripleGenerator>(
    states: Seq<G>,
    slots: Seq<QuerySlot>,
    batches: Seq<Seq<CompressedTriple>>,
) -> bool {
    &&& states.len() == slots.len() + 1
    &&& batches.len() == slots.len()
    &&& forall|k: int|
        0 <= k < slots.len() ==> (#[trigger] states[k]).gives(
            slots[k].0,
            batches[k],
            &states[k + 1],
        )
}

/// `out` is what the slots write when a source that is as `before` is asked,
/// slot by slot, for a batch of the slot's size, and is as `after` in the end.
pub open spec fn is_planned_from<G: TripleGenerator>(
    out: QueryOutput,
    slots: Seq<QuerySlot>,
    dictionary: Map<u64, Seq<u8>>,
    prepare_format: OutputFormat,
    before: &G,
    after: &G,
) -> bool {
    exists|states: Seq<G>, batches: Seq<Seq<CompressedTriple>>|
        {
            &&& #[trigger] is_run_of(states, slots, batches)
            &&& states.first() == *before
            &&& states.last() == *after
            &&& is_workload_output(out, slots, batches, dictionary, prepare_format)
            &&& all_from(before, batches)
        }
}

/// The triples of each batch.
pub open spec fn batch_views(batches: Seq<Vec<CompressedTriple>>) -> Seq<Seq<CompressedTriple>> {
    batches.map_values(|batch: Vec<CompressedTriple>| batch@)
}

/// Writes the queries of slots whose batches are at hand: query `i` is of the
/// kind of slot `i` and has the triples of batch `i`, resolved by the
/// dictionary. A batch of another size than its slot asked for is noted.
pub fn write_planned_queries(
    slots: &[QuerySlot],
    batches: &[Vec<CompressedTriple>],
    prepare_format: OutputFormat,
    decompressor: &RdfTripleDecompressor,
) -> (out: QueryOutput)
    requires
        decompressor.wf(),
        batches@.len() == slots@.len(),
        forall|i: int|
            0 <= i < batches@.len() ==> decompressor.knows_all((#[trigger] batches@[i])@),
    ensures
        is_workload_output(out, slots@, batch_views(batches@), decompressor@, prepare_format),
{
    let n = slots.len();
    let mut queries: Vec<Query<'_>> = Vec::with_capacity(n);
    let mut i: usize = 0;
    while i < n
        invariant
            i <= n,
            n == slots@.len(),
            n == batches@.len(),
            decompressor.wf(),
            forall|i: int|
                0 <= i < batches@.len() ==> decompressor.knows_all((#[trigger] batches@[i])@),
            query_models(queries@) == planned_queries(
                slots@.subrange(0, i as int),
                batch_views(batches@),
                decompressor@,
            ),
        decreases n - i,
    {
        let slot = slots[i];
        let triples = decompressor.decompress_all(batches[i].as_slice());
        let ghost models = query_models(queries@);
        let query = Query { query_type: slot.1, expected_size: Some(slot.0), triples };
        queries.push(query);
        proof {
            assert(query_models(queries@) =~= models.push(query@));
            assert(query_models(queries@) =~= planned_queries(
                slots@.subrange(0, i + 1),
                batch_views(batches@),
                decompressor@,
            ));
        }
        i += 1;
    }
    assert(slots@.subrange(0, n as int) =~= slots@);
    write_update_data_queries(queries.as_slice(), Some(prepare_format))
}

/// Writes the queries of slots that are in their final order: the source is
/// asked once for each slot, in the order of the slots, for a batch of the
/// slot's size, and query `k` holds the triples of the batch that the source
/// gave to call `k`.
pub fn generate_planned_queries<G: TripleGenerator>(
    slots: &[QuerySlot],
    prepare_format: OutputFormat,
    decompressor: &RdfTripleDecompressor,
    generator: &mut G,
) -> (out: QueryOutput)
    requires
        decompressor.wf(),
        old(generator).wf(),
        old(generator).can_serve(slots@.len(), max_slot_size(slots@)),
        forall|t: CompressedTriple| old(generator).may_emit(t) ==> decompressor.knows_triple(t),
    ensures
        final(generator).wf(),
        forall|t: CompressedTriple| final(generator).may_emit(t) == old(generator).may_emit(t),
        is_planned_from(
            out,
            slots@,
            decompressor@,
            prepare_format,
            old(generator),
            final(generator),
        ),
{
    let n = slots.len();
    let ghost max = max_slot_size(slots@);
    let ghost mut states: Seq<G> = seq![*generator];
    let mut batches: Vec<Vec<CompressedTriple>> = Vec::with_capacity(n);
    let mut i: usize = 0;
    while i < n
        invariant
            i <= n,
            n == slots@.len(),
            max == max_slot_size(slots@),
            decompressor.wf(),
            generator.wf(),
            generator.can_serve((n - i) as nat, max),
            forall|t: CompressedTriple| generator.may_emit(t) == old(generator).may_emit(t),
            forall|t: CompressedTriple| old(generator).may_emit(t) ==> decompressor.knows_triple(t),
            batches@.len() == i,
            all_from(old(generator), batch_views(batches@)),
            is_run_of(states, slots@.subrange(0, i as int), batch_views(batches@)),
            states.first() == *old(generator),
            states.last() == *generator,
        decreases n - i,
    {
        let slot = slots[i];
        proof {
            lemma_max_slot_size(slots@, i as int);
            generator.lemma_can_serve_less((n - i) as nat, max, 1, slot.0 as nat);
        }
        let ghost before = *generator;
        let ghost earlier = batches@;
        let ghost run = states;
        let batch = generator.next_batch(slot.0);
        proof {
            assert(before.can_serve((n - i) as nat, max));
        }
        batches.push(batch);
        proof {
            states = run.push(*generator);
            let views = batch_views(batches@);
            assert forall|a: int, b: int|
                0 <= a < views.len() && 0 <= b < views[a].len() implies old(generator).may_emit(
                #[trigger] views[a][b],
            ) by {
                if a < i {
                    assert(views[a] == batch_views(earlier)[a]);
                } else {
                    assert(before.may_emit(batch@[b]));
                }
            }
            let part = slots@.subrange(0, i as int);
            let more = slots@.subrange(0, i + 1);
            assert forall|k: int| 0 <= k < more.len() implies (#[trigger] states[k]).gives(
                more[k].0,
                views[k],
                &states[k + 1],
            ) by {
                if k < i {
                    assert(states[k] == run[k]);
                    assert(states[k + 1] == run[k + 1]);
                    assert(views[k] == batch_views(earlier)[k]);
                    assert(more[k] == part[k]);
                    assert(run[k].gives(part[k].0, batch_views(earlier)[k], &run[k + 1]));
                } else {
                    assert(states[k] == before);
                    assert(views[k] == batch@);
                }
            }
        }
        i += 1;
    }
    proof {
        assert(slots@.subrange(0, n as int) =~= slots@);
        assert forall|k: int| 0 <= k < batches@.len() implies decompressor.knows_all(
            (#[trigger] batches@[k])@,
        ) by {
            let views = batch_views(batches@);
            assert forall|j: int| 0 <= j < batches@[k]@.len() implies decompressor.knows_triple(
                #[trigger] batches@[k]@[j],
            ) by {
                assert(old(generator).may_emit(views[k][j]));
            }
        }
    }
    let out = write_planned_queries(slots, batches.as_slice(), prepare_format, decompressor);
    proof {
        assert(is_run_of(states, slots@, batch_views(batches@)));
    }
    out
}

/// `out` is what a workload writes whose slots stand in an order that meets
/// the order asked for, when a source that is as `before` is asked, slot by
/// slot in that order, for a batch of the slot's size, and is as `after` in
/// the end.
pub open spec fn is_generated_from<G: TripleGenerator>(
    out: QueryOutput,
    slots: Seq<QuerySlot>,
    order: OutputOrder,
    dictionary: Map<u64, Seq<u8>>,
    prepare_format: OutputFormat,
    before: &G,
    after: &G,
) -> bool {
    exists|ordered: Seq<QuerySlot>|
        {
            &&& #[trigger] is_order_of(slots, order, ordered)
            &&& is_planned_from(out, ordered, dictionary, prepare_format, before, after)
        }
}

/// Writes a workload: the query specs are listed as slots, the slots are
/// put into the order asked for, and each slot gets a batch of the source.
///
/// Insertions and deletions can take turns only in an even number of
/// queries. The slots may end up in any order that meets the order asked for;
/// the source is asked once for each slot, in that order, with the slot's size.
pub fn generate_queries<G: TripleGenerator>(
    specs: &[QuerySpec],
    prepare_format: OutputFormat,
    decompressor: &RdfTripleDecompressor,
    generator: &mut G,
    order: OutputOrder,
) -> (r: Result<QueryOutput, QueryError>)
    requires
        decompressor.wf(),
        old(generator).wf(),
        old(generator).can_serve(expanded(specs@).len(), max_slot_size(expanded(specs@))),
        forall|t: CompressedTriple| old(generator).may_emit(t) ==> decompressor.knows_triple(t),
    ensures
        r is Err <==> order == OutputOrder::SortedSizeAscAlternateInsertDelete && expanded(
            specs@,
        ).len() % 2 != 0,
        r matches Err(e) ==> e == QueryError::OddNumberOfQueries && *final(generator) == *old(
            generator,
        ),
        r is Ok ==> final(generator).wf(),
        r matches Ok(out) ==> is_generated_from(
            out,
            expanded(specs@),
            order,
            decompressor@,
            prepare_format,
            old(generator),
            final(generator),
        ),
{
    let slots = expand_query_specs(specs);
    let ordered = match order_slots(slots, order) {
        Ok(ordered) => ordered,
        Err(e) => {
            return Err(e);
        },
    };
    proof {
        lemma_order_keeps_bounds(expanded(specs@), order, ordered@);
        generator.lemma_can_serve_less(
            expanded(specs@).len(),
            max_slot_size(expanded(specs@)),
            ordered@.len(),
            max_slot_size(ordered@),
        );
    }
    let out = generate_planned_queries(ordered.as_slice(), prepare_format, decompressor, generator);
    proof {
        assert(is_order_of(expanded(specs@), order, ordered@));
    }
    Ok(out)
}

/// The dataset whose triples are left out, if there is one.
pub open spec fn excluded_triples(exclude: Option<&CompressedRdfTriples>) -> Option<
    Seq<CompressedTriple>,
> {
    match exclude {
        Some(dataset) => Some(dataset@),
        None => None,
    }
}

/// The condition of not being a triple of the dataset that is left out.
pub open spec fn not_excluded(exclude: Option<Seq<CompressedTriple>>) -> spec_fn(
    CompressedTriple,
) -> bool {
    |triple: CompressedTriple|
        match exclude {
            Some(dataset) => !dataset.contains(triple),
            None => true,
        }
}

/// The kind and the triples of each input.
pub open spec fn input_models(inputs: Seq<(QueryType, &CompressedRdfTriples)>) -> Seq<
    (QueryType, Seq<CompressedTriple>),
> {
    inputs.map_values(|input: (QueryType, &CompressedRdfTriples)| (input.0, input.1@))
}

/// The queries that replicate the inputs: one for each input, of the input's
/// kind, with the triples of the input that are not left out.
pub open spec fn replicated_queries(
    inputs: Seq<(QueryType, Seq<CompressedTriple>)>,
    exclude: Option<Seq<CompressedTriple>>,
    dictionary: Map<u64, Seq<u8>>,
) -> Seq<QueryModel> {
    Seq::new(
        inputs.len(),
        |i: int|
            QueryModel {
                query_type: inputs[i].0,
                expected_size: None,
                triples: decompressed_all(dictionary, inputs[i].1.filter(not_excluded(exclude))),
            },
    )
}

/// Copies the triples that are not left out.
fn without_excluded(
    triples: &CompressedRdfTriples,
    exclude: Option<&CompressedRdfTriples>,
) -> (kept: Vec<CompressedTriple>)
    requires
        exclude matches Some(dataset) ==> triples_sorted(dataset@),
    ensures
        kept@ == triples@.filter(not_excluded(excluded_triples(exclude))),
{
    let ghost wanted = not_excluded(excluded_triples(exclude));
    let mut kept: Vec<CompressedTriple> = Vec::new();
    let n = triples.len();
    let mut i: usize = 0;
    proof {
        lemma_filter_none(triples@.subrange(0, 0), wanted);
    }
    while i < n
        invariant
            i <= n,
            n == triples@.len(),
            wanted == not_excluded(excluded_triples(exclude)),
            exclude matches Some(dataset) ==> triples_sorted(dataset@),
            kept@ == triples@.subrange(0, i as int).filter(wanted),
        decreases n - i,
    {
        let triple = triples.get(i);
        proof {
            let part = triples@.subrange(0, i as int);
            assert(triples@.subrange(0, i + 1) =~= part.push(*triple));
            lemma_filter_push(part, *triple, wanted);
        }
        let keep = match exclude {
            Some(dataset) => !dataset.contains(triple),
            None => true,
        };
        if keep {
            kept.push(*triple);
        }
        i += 1;
    }
    assert(triples@.subrange(0, n as int) =~= triples@);
    kept
}

/// The dictionary has every identifier of every triple of the inputs that is
/// not left out.
pub open spec fn knows_all_kept(
    dictionary: &RdfTripleDecompressor,
    exclude: Option<Seq<CompressedTriple>>,
    inputs: Seq<(QueryType, &CompressedRdfTriples)>,
) -> bool {
    forall|i: int|
        0 <= i < inputs.len() ==> dictionary.knows_all(
            (#[trigger] inputs[i]).1@.filter(not_excluded(exclude)),
        )
}

/// Tells whether the inputs can be replicated with a dictionary: whether the
/// dictionary has every identifier of every triple that is not left out.
pub fn can_replicate(
    decompressor: &RdfTripleDecompressor,
    exclude_dataset: Option<&CompressedRdfTriples>,
    generators: &[(QueryType, &CompressedRdfTriples)],
) -> (r: bool)
    requires
        decompressor.wf(),
        exclude_dataset matches Some(dataset) ==> triples_sorted(dataset@),
    ensures
        r == knows_all_kept(decompressor, excluded_triples(exclude_dataset), generators@),
{
    let n = generators.len();
    let mut i: usize = 0;
    while i < n
        invariant
            i <= n,
            n == generators@.len(),
            decompressor.wf(),
            exclude_dataset matches Some(dataset) ==> triples_sorted(dataset@),
            knows_all_kept(
                decompressor,
                excluded_triples(exclude_dataset),
                generators@.subrange(0, i as int),
            ),
        decreases n - i,
    {
        let (_, triples) = generators[i];
        assert(generators@[i as int].1@ == triples@);
        let kept = without_excluded(triples, exclude_dataset);
        if !decompressor.knows_all_triples(kept.as_slice()) {
            return false;
        }
        proof {
            let part = generators@.subrange(0, i as int);
            let more = generators@.subrange(0, i + 1);
            assert forall|k: int| 0 <= k < more.len() implies decompressor.knows_all(
                (#[trigger] more[k]).1@.filter(not_excluded(excluded_triples(exclude_dataset))),
            ) by {
                if k < i {
                    assert(more[k] == part[k]);
                }
            }
        }
        i += 1;
    }
    assert(generators@.subrange(0, n as int) =~= generators@);
    true
}

/// Replicates compressed files as queries: each input becomes one query of
/// its kind. Triples of the dataset to leave out, which has to be sorted, are
/// left out. The result is the query text, or with the other format the
/// triples of all inputs as plain N-Triples.
pub fn generate_linear_no_size_hint(
    decompressor: &RdfTripleDecompressor,
    exclude_dataset: Option<&CompressedRdfTriples>,
    generators: &[(QueryType, &CompressedRdfTriples)],
    output_format: OutputFormat,
) -> (text: Vec<u8>)
    requires
        decompressor.wf(),
        exclude_dataset matches Some(dataset) ==> triples_sorted(dataset@),
        knows_all_kept(decompressor, excluded_triples(exclude_dataset), generators@),
    ensures
        text@ == match output_format {
            OutputFormat::Query => queries_text(
                replicated_queries(
                    input_models(generators@),
                    excluded_triples(exclude_dataset),
                    decompressor@,
                ),
            ),
            OutputFormat::NTriples => workload_ntriples(
                replicated_queries(
                    input_models(generators@),
                    excluded_triples(exclude_dataset),
                    decompressor@,
                ),
            ),
        },
{
    let ghost exclude = excluded_triples(exclude_dataset);
    let ghost inputs = input_models(generators@);
    let n = generators.len();
    let mut queries: Vec<Query<'_>> = Vec::with_capacity(n);
    let mut i: usize = 0;
    while i < n
        invariant
            i <= n,
            n == generators@.len(),
            decompressor.wf(),
            exclude == excluded_triples(exclude_dataset),
            inputs == input_models(generators@),
            exclude_dataset matches Some(dataset) ==> triples_sorted(dataset@),
            forall|i: int|
                0 <= i < generators@.len() ==> decompressor.knows_all(
                    (#[trigger] generators@[i]).1@.filter(not_excluded(exclude)),
                ),
            query_models(queries@) == replicated_queries(
                inputs.subrange(0, i as int),
                exclude,
                decompressor@,
            ),
        decreases n - i,
    {
        let (query_type, triples) = generators[i];
        assert(generators@[i as int].1@ == triples@);
        let kept = without_excluded(triples, exclude_dataset);
        let raws = decompressor.decompress_all(kept.as_slice());
        let ghost models = query_models(queries@);
        let query = Query { query_type, expected_size: None, triples: raws };
        queries.push(query);
        proof {
            assert(query_models(queries@) =~= models.push(query@));
            assert(query_models(queries@) =~= replicated_queries(
                inputs.subrange(0, i + 1),
                exclude,
                decompressor@,
            ));
        }
        i += 1;
    }
    assert(inputs.subrange(0, n as int) =~= inputs);
    match output_format {
        OutputFormat::Query => write_update_data_queries(queries.as_slice(), None).query,
        OutputFormat::NTriples => write_ntriples_file(queries.as_slice()).query,
    }
}

/// The bytes of `added.compressed_nt`.
pub const ADDED_SUFFIX: [u8; 19] = [
    0x61, 0x64, 0x64, 0x65, 0x64, 0x2e, 0x63, 0x6f, 0x6d, 0x70, 0x72, 0x65, 0x73, 0x73, 0x65, 0x64,
    0x5f, 0x6e, 0x74,
];

/// The bytes of `removed.compressed_nt`.
pub const REMOVED_SUFFIX: [u8; 21] = [
    0x72, 0x65, 0x6d, 0x6f, 0x76, 0x65, 0x64, 0x2e, 0x63, 0x6f, 0x6d, 0x70, 0x72, 0x65, 0x73, 0x73,
    0x65, 0x64, 0x5f, 0x6e, 0x74,
];

/// `name` ends with `suffix`.
pub open spec fn ends_with(name: Seq<u8>, suffix: Seq<u8>) -> bool {
    suffix.len() <= name.len() && name.subrange(name.len() - suffix.len(), name.len() as int)
        == suffix
}

/// Tells whether a name ends with a suffix.
pub fn has_suffix(name: &[u8], suffix: &[u8]) -> (r: bool)
    ensures
        r == ends_with(name@, suffix@),
{
    let n = name.len();
    let m = suffix.len();
    if m > n {
        return false;
    }
    let mut i: usize = 0;
    while i < m
        invariant
            i <= m <= n,
            n == name@.len(),
            m == suffix@.len(),
            forall|k: int| 0 <= k < i ==> name@[n - m + k] == suffix@[k],
        decreases m - i,
    {
        if name[n - m + i] != suffix[i] {
            proof {
                let tail = name@.subrange(n - m, n as int);
                assert(tail[i as int] != suffix@[i as int]);
            }
            return false;
        }
        i += 1;
    }
    assert(name@.subrange(n - m, n as int) =~= suffix@);
    true
}

/// The kind of query that a changeset file stands for: a file whose name ends
/// with `added.compressed_nt` holds insertions, one whose name ends with
/// `removed.compressed_nt` holds deletions, any other file neither.
pub fn query_type_of_file_name(name: &[u8]) -> (r: Option<QueryType>)
    ensures
        r == if ends_with(name@, ADDED_SUFFIX@) {
            Some(QueryType::InsertData)
        } else if ends_with(name@, REMOVED_SUFFIX@) {
            Some(QueryType::DeleteData)
        } else {
            None
        },
{
    if has_suffix(name, vstd::array::array_as_slice(&ADDED_SUFFIX)) {
        Some(QueryType::InsertData)
    } else if has_suffix(name, vstd::array::array_as_slice(&REMOVED_SUFFIX)) {
        Some(QueryType::DeleteData)
    } else {
        None
    }
}

} // verus!
