//! The text of queries: how a query is written as a line, and what a whole
//! workload writes to the query file and to the prepare file.

use crate::byte_order::push_bytes;
use crate::ntriples::{
    ntriples_text, push_ntriples_line, push_statement, raw_terms, raw_terms_of, statement,
    TermTriple, NEWLINE, SPACE,
};
use crate::sparql::{OutputFormat, QueryType};
use crate::triples::RawTriple;
use vstd::prelude::*;

verus! {

/// The bytes of `INSERT DATA { `.
pub const INSERT_DATA_OPEN: [u8; 14] = [
    0x49, 0x4e, 0x53, 0x45, 0x52, 0x54, 0x20, 0x44, 0x41, 0x54, 0x41, 0x20, 0x7b, 0x20,
];

/// The bytes of `DELETE DATA { `.
pub const DELETE_DATA_OPEN: [u8; 14] = [
    0x44, 0x45, 0x4c, 0x45, 0x54, 0x45, 0x20, 0x44, 0x41, 0x54, 0x41, 0x20, 0x7b, 0x20,
];

/// The closing brace of a query.
pub const BRACE_CLOSE: u8 = 0x7d;

/// How a query of a kind starts: its keywords, an opening brace and a space.
pub open spec fn query_open(query_type: QueryType) -> Seq<u8> {
    match query_type {
        QueryType::InsertData => INSERT_DATA_OPEN@,
        QueryType::DeleteData => DELETE_DATA_OPEN@,
    }
}

/// The statements of a query: each triple as a statement, followed by a space.
pub open spec fn query_body(triples: Seq<TermTriple>) -> Seq<u8>
    decreases triples.len(),
{
    if triples.len() == 0 {
        Seq::empty()
    } else {
        query_body(triples.drop_last()) + statement(triples.last()) + seq![SPACE]
    }
}

/// A query as one line of text: `INSERT DATA { S P O . S P O . }`.
pub open spec fn query_text(query_type: QueryType, triples: Seq<TermTriple>) -> Seq<u8> {
    query_open(query_type) + query_body(triples) + seq![BRACE_CLOSE, NEWLINE]
}

/// One query of a workload: its kind, the size that was asked for, if any,
/// and its triples.
pub struct Query<'a> {
    pub query_type: QueryType,
    pub expected_size: Option<usize>,
    pub triples: Vec<RawTriple<'a>>,
}

/// A query with the terms of its triples as plain values.
pub struct QueryModel {
    pub query_type: QueryType,
    pub expected_size: Option<usize>,
    pub triples: Seq<TermTriple>,
}

impl<'a> View for Query<'a> {
    type V = QueryModel;

    open spec fn view(&self) -> QueryModel {
        QueryModel {
            query_type: self.query_type,
            expected_size: self.expected_size,
            triples: raw_terms_of(self.triples@),
        }
    }
}

/// Each query of a sequence with the terms of its triples as plain values.
pub open spec fn query_models(queries: Seq<Query>) -> Seq<QueryModel> {
    queries.map_values(|q: Query| q@)
}

/// A query that did not get as many triples as were asked for.
#[derive(Clone, Copy, Debug, PartialEq, Eq, Structural)]
pub struct SizeMismatch {
    /// Position of the query in the workload.
    pub query: usize,
    /// Number of triples asked for.
    pub requested: usize,
    /// Number of triples the query has.
    pub actual: usize,
}

/// The query has another number of triples than was asked for.
pub open spec fn misses_size(query: QueryModel) -> bool {
    query.expected_size matches Some(requested) && requested != query.triples.len()
}

/// What a workload writes to the query file: each query as a line.
pub open spec fn queries_text(queries: Seq<QueryModel>) -> Seq<u8>
    decreases queries.len(),
{
    if queries.len() == 0 {
        Seq::empty()
    } else {
        queries_text(queries.drop_last()) + query_text(
            queries.last().query_type,
            queries.last().triples,
        )
    }
}

/// What one query writes to the prepare file: an insertion is mirrored as a
/// deletion, or listed as N-Triples; a deletion writes nothing. Without a
/// prepare file nothing is written.
pub open spec fn prepare_text_of(query: QueryModel, format: Option<OutputFormat>) -> Seq<u8> {
    match (query.query_type, format) {
        (QueryType::InsertData, Some(OutputFormat::Query)) => query_text(
            QueryType::DeleteData,
            query.triples,
        ),
        (QueryType::InsertData, Some(OutputFormat::NTriples)) => ntriples_text(query.triples),
        _ => Seq::empty(),
    }
}

/// What a workload writes to the prepare file.
pub open spec fn prepare_text(queries: Seq<QueryModel>, format: Option<OutputFormat>) -> Seq<u8>
    decreases queries.len(),
{
    if queries.len() == 0 {
        Seq::empty()
    } else {
        prepare_text(queries.drop_last(), format) + prepare_text_of(queries.last(), format)
    }
}

/// The queries of a workload that missed their size, in the order of the workload.
pub open spec fn size_mismatches(queries: Seq<QueryModel>) -> Seq<SizeMismatch>
    decreases queries.len(),
{
    if queries.len() == 0 {
        Seq::empty()
    } else if misses_size(queries.last()) {
        size_mismatches(queries.drop_last()).push(
            (SizeMismatch {
                query: (queries.len() - 1) as usize,
                requested: queries.last().expected_size->0,
                actual: queries.last().triples.len() as usize,
            }),
        )
    } else {
        size_mismatches(queries.drop_last())
    }
}

/// What a workload writes as plain N-Triples: the triples of each query, line by line.
pub open spec fn workload_ntriples(queries: Seq<QueryModel>) -> Seq<u8>
    decreases queries.len(),
{
    if queries.len() == 0 {
        Seq::empty()
    } else {
        workload_ntriples(queries.drop_last()) + ntriples_text(queries.last().triples)
    }
}

/// What has been written for a workload.
pub struct QueryOutput {
    /// The text for the query file.
    pub query: Vec<u8>,
    /// The text for the prepare file.
    pub prepare: Vec<u8>,
    /// The queries that missed their size.
    pub mismatches: Vec<SizeMismatch>,
}

/// Appends the keywords that open a query of a kind.
fn push_query_open(out: &mut Vec<u8>, query_type: QueryType)
    ensures
        final(out)@ == old(out)@ + query_open(query_type),
{
    match query_type {
        QueryType::InsertData => push_bytes(out, vstd::array::array_as_slice(&INSERT_DATA_OPEN)),
        QueryType::DeleteData => push_bytes(out, vstd::array::array_as_slice(&DELETE_DATA_OPEN)),
    }
}

/// Appends a query as one line of text.
pub fn write_query(out: &mut Vec<u8>, query_type: QueryType, triples: &[RawTriple])
    ensures
        final(out)@ == old(out)@ + query_text(query_type, raw_terms_of(triples@)),
{
    push_query_open(out, query_type);
    let ghost opened = out@;
    let n = triples.len();
    let mut i: usize = 0;
    while i < n
        invariant
            i <= n,
            n == triples@.len(),
            out@ == opened + query_body(raw_terms_of(triples@.subrange(0, i as int))),
        decreases n - i,
    {
        push_statement(out, &triples[i]);
        out.push(SPACE);
        proof {
            let before = raw_terms_of(triples@.subrange(0, i as int));
            let after = raw_terms_of(triples@.subrange(0, i + 1));
            assert(after.drop_last() =~= before);
            assert(after.last() == raw_terms(triples@[i as int]));
            assert(out@ =~= opened + query_body(after));
        }
        i += 1;
    }
    out.push(BRACE_CLOSE);
    out.push(NEWLINE);
    proof {
        assert(triples@.subrange(0, n as int) =~= triples@);
        assert(out@ =~= old(out)@ + query_text(query_type, raw_terms_of(triples@)));
    }
}

/// Appends triples as lines of N-Triples.
pub fn write_ntriples(out: &mut Vec<u8>, triples: &[RawTriple])
    ensures
        final(out)@ == old(out)@ + ntriples_text(raw_terms_of(triples@)),
{
    let n = triples.len();
    let mut i: usize = 0;
    while i < n
        invariant
            i <= n,
            n == triples@.len(),
            out@ == old(out)@ + ntriples_text(raw_terms_of(triples@.subrange(0, i as int))),
        decreases n - i,
    {
        push_ntriples_line(out, &triples[i]);
        proof {
            let before = raw_terms_of(triples@.subrange(0, i as int));
            let after = raw_terms_of(triples@.subrange(0, i + 1));
            assert(after.drop_last() =~= before);
            assert(after.last() == raw_terms(triples@[i as int]));
            assert(out@ =~= old(out)@ + ntriples_text(after));
        }
        i += 1;
    }
    assert(triples@.subrange(0, n as int) =~= triples@);
}

/// Notes a query that missed its size.
fn note_mismatch(mismatches: &mut Vec<SizeMismatch>, queries: &[Query], i: usize)
    requires
        i < queries@.len(),
        old(mismatches)@ == size_mismatches(query_models(queries@.subrange(0, i as int))),
    ensures
        final(mismatches)@ == size_mismatches(query_models(queries@.subrange(0, i + 1))),
{
    let query = &queries[i];
    proof {
        let before = query_models(queries@.subrange(0, i as int));
        let after = query_models(queries@.subrange(0, i + 1));
        assert(after.drop_last() =~= before);
        assert(after.last() == query@);
    }
    match query.expected_size {
        Some(requested) => {
            if requested != query.triples.len() {
                mismatches.push(
                    SizeMismatch { query: i, requested, actual: query.triples.len() },
                );
            }
        },
        None => {},
    }
}

/// Writes the queries of a workload: every query as a line of the query
/// text, and every insertion once more to the prepare text, as a deletion or
/// as N-Triples. Queries that missed their size are listed.
pub fn write_update_data_queries(queries: &[Query], prepare_format: Option<OutputFormat>) -> (out:
    QueryOutput)
    ensures
        out.query@ == queries_text(query_models(queries@)),
        out.prepare@ == prepare_text(query_models(queries@), prepare_format),
        out.mismatches@ == size_mismatches(query_models(queries@)),
{
    let mut query_out: Vec<u8> = Vec::new();
    let mut prepare_out: Vec<u8> = Vec::new();
    let mut mismatches: Vec<SizeMismatch> = Vec::new();
    let n = queries.len();
    let mut i: usize = 0;
    while i < n
        invariant
            i <= n,
            n == queries@.len(),
            query_out@ == queries_text(query_models(queries@.subrange(0, i as int))),
            prepare_out@ == prepare_text(
                query_models(queries@.subrange(0, i as int)),
                prepare_format,
            ),
            mismatches@ == size_mismatches(query_models(queries@.subrange(0, i as int))),
        decreases n - i,
    {
        let query = &queries[i];
        proof {
            let before = query_models(queries@.subrange(0, i as int));
            let after = query_models(queries@.subrange(0, i + 1));
            assert(after.drop_last() =~= before);
            assert(after.last() == query@);
        }
        write_query(&mut query_out, query.query_type, query.triples.as_slice());
        match (query.query_type, prepare_format) {
            (QueryType::InsertData, Some(OutputFormat::Query)) => {
                write_query(&mut prepare_out, QueryType::DeleteData, query.triples.as_slice());
            },
            (QueryType::InsertData, Some(OutputFormat::NTriples)) => {
                write_ntriples(&mut prepare_out, query.triples.as_slice());
            },
            _ => {
                assert(prepare_out@ + Seq::<u8>::empty() =~= prepare_out@);
            },
        }
        note_mismatch(&mut mismatches, queries, i);
        i += 1;
    }
    assert(queries@.subrange(0, n as int) =~= queries@);
    QueryOutput { query: query_out, prepare: prepare_out, mismatches }
}

/// Writes the triples of a workload as plain N-Triples, query after query.
/// Queries that missed their size are listed.
pub fn write_ntriples_file(queries: &[Query]) -> (out: QueryOutput)
    ensures
        out.query@ == workload_ntriples(query_models(queries@)),
        out.prepare@ == Seq::<u8>::empty(),
        out.mismatches@ == size_mismatches(query_models(queries@)),
{
    let mut text: Vec<u8> = Vec::new();
    let mut mismatches: Vec<SizeMismatch> = Vec::new();
    let n = queries.len();
    let mut i: usize = 0;
    while i < n
        invariant
            i <= n,
            n == queries@.len(),
            text@ == workload_ntriples(query_models(queries@.subrange(0, i as int))),
            mismatches@ == size_mismatches(query_models(queries@.subrange(0, i as int))),
        decreases n - i,
    {
        let query = &queries[i];
        proof {
            let before = query_models(queries@.subrange(0, i as int));
            let after = query_models(queries@.subrange(0, i + 1));
            assert(after.drop_last() =~= before);
            assert(after.last() == query@);
        }
        write_ntriples(&mut text, query.triples.as_slice());
        note_mismatch(&mut mismatches, queries, i);
        i += 1;
    }
    assert(queries@.subrange(0, n as int) =~= queries@);
    QueryOutput { query: text, prepare: Vec::new(), mismatches }
}

} // verus!
