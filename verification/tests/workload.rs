use sparql_update_gen::byte_order::ByteOrder;
use sparql_update_gen::compressor::RdfTripleCompressor;
use sparql_update_gen::decompressor::RdfTripleDecompressor;
use sparql_update_gen::generator::{
    as_is_changeset_triple_generator, random_distinct_triple_generator, RandomDistinctGenerator,
    TripleGenerator,
};
use sparql_update_gen::query_spec::{parse_query_spec, QuerySizeOpt, QuerySpecError};
use sparql_update_gen::ordering::{
    alternate_insert_delete, expand_query_specs, largest_slot_size, order_slots,
    stable_sort_by_size,
};
use sparql_update_gen::query_text::{
    write_ntriples_file, write_update_data_queries, Query, SizeMismatch,
};
use sparql_update_gen::sparql::{
    can_replicate, generate_linear_no_size_hint, generate_planned_queries, generate_queries,
    query_type_of_file_name, write_planned_queries, OutputFormat, OutputOrder, QueryError,
    QuerySpec, QueryType,
};
use sparql_update_gen::triples::CompressedRdfTriples;

use sparql_update_gen::sparql::QueryType::{DeleteData, InsertData};

fn spec(query_type: QueryType, n_queries: usize, n_triples_per_query: usize) -> QuerySpec {
    QuerySpec { n_queries, n_triples_per_query, query_type }
}

fn dataset(lines: &[u8]) -> (RdfTripleDecompressor, CompressedRdfTriples) {
    let mut compressor = RdfTripleCompressor::new();
    let triples = compressor.compress_raw_rdf_triple_file(lines, false);
    let state = compressor.save_state(ByteOrder::Little).unwrap();
    let frozen = RdfTripleDecompressor::load_state(&state, ByteOrder::Little).unwrap();
    (frozen, CompressedRdfTriples::new(triples))
}

#[test]
fn query_spec_with_percentage() {
    let parsed = parse_query_spec(b"i3x50%").unwrap();
    assert_eq!(parsed.n_queries, 3);
    assert_eq!(parsed.query_type, InsertData);
    let share: f64 = match parsed.n_triples_per_query {
        QuerySizeOpt::Percentage(text) => {
            assert_eq!(text, b"50".to_vec());
            String::from_utf8(text).unwrap().parse::<f64>().unwrap() / 100.0
        },
        QuerySizeOpt::Absolute(_) => panic!("a percentage"),
    };
    let spec = QuerySpec {
        n_queries: parsed.n_queries,
        n_triples_per_query: (1000 as f64 * share) as usize,
        query_type: parsed.query_type,
    };
    assert_eq!(spec, QuerySpec { n_queries: 3, n_triples_per_query: 500, query_type: InsertData });
}

#[test]
fn query_spec_with_absolute_size() {
    let parsed = parse_query_spec(b"d10x+0250").unwrap();
    assert_eq!(parsed.n_queries, 10);
    assert_eq!(parsed.query_type, DeleteData);
    assert!(matches!(parsed.n_triples_per_query, QuerySizeOpt::Absolute(250)));
    let parsed = parse_query_spec(b"i1x2.5%").unwrap();
    assert!(matches!(parsed.n_triples_per_query, QuerySizeOpt::Percentage(text) if text == b"2.5"));
    assert_eq!(parse_query_spec(b"i1x2.5%%").err(), Some(QuerySpecError::InvalidSize));
    assert_eq!(parse_query_spec(b"i1x5%%").err(), Some(QuerySpecError::InvalidSize));
    assert_eq!(parse_query_spec(b"i1x5%5%").err(), Some(QuerySpecError::InvalidSize));
    assert_eq!(parse_query_spec(b"i1x%").err(), Some(QuerySpecError::InvalidSize));
    let parsed = parse_query_spec(b"i7xx").err();
    assert_eq!(parsed, Some(QuerySpecError::InvalidSize));
}

#[test]
fn query_spec_errors() {
    let error = |text: &[u8]| parse_query_spec(text).err();
    assert_eq!(error(b""), Some(QuerySpecError::MissingType));
    assert_eq!(error(b"3x5"), Some(QuerySpecError::MissingType));
    assert_eq!(error(b"I3x5"), Some(QuerySpecError::MissingType));
    assert_eq!(error(b"i35"), Some(QuerySpecError::MissingDelimiter));
    assert_eq!(error(b"i"), Some(QuerySpecError::MissingDelimiter));
    assert_eq!(error(b"ix5"), Some(QuerySpecError::InvalidCount));
    assert_eq!(error(b"i-3x5"), Some(QuerySpecError::InvalidCount));
    assert_eq!(error(b"i+x5"), Some(QuerySpecError::InvalidCount));
    assert_eq!(error(b"i3 x5"), Some(QuerySpecError::InvalidCount));
    assert_eq!(error(b"i99999999999999999999999999x5"), Some(QuerySpecError::InvalidCount));
    assert_eq!(error(b"i3x"), Some(QuerySpecError::InvalidSize));
    assert_eq!(error(b"i3x5.0"), Some(QuerySpecError::InvalidSize));
    assert_eq!(error(b"i3x99999999999999999999999999"), Some(QuerySpecError::InvalidSize));
    let max = format!("i3x{}", usize::MAX);
    assert!(matches!(
        parse_query_spec(max.as_bytes()).unwrap().n_triples_per_query,
        QuerySizeOpt::Absolute(usize::MAX)
    ));
}

#[test]
fn specs_are_expanded_in_order() {
    let slots = expand_query_specs(&[spec(InsertData, 2, 10), spec(DeleteData, 0, 5), spec(DeleteData, 1, 20)]);
    assert_eq!(slots, vec![(10, InsertData), (10, InsertData), (20, DeleteData)]);
    assert_eq!(expand_query_specs(&[]), vec![]);
    assert_eq!(largest_slot_size(&slots), 20);
    assert_eq!(largest_slot_size(&[]), 0);
}

#[test]
fn insertions_and_deletions_take_turns() {
    let slots = expand_query_specs(&[spec(InsertData, 2, 10), spec(DeleteData, 2, 20)]);
    let ordered = order_slots(slots, OutputOrder::SortedSizeAscAlternateInsertDelete).unwrap();
    assert_eq!(
        ordered,
        vec![(10, InsertData), (20, DeleteData), (10, InsertData), (20, DeleteData)]
    );
}

#[test]
fn turns_are_sorted_by_size_within_each_kind() {
    let slots = vec![
        (30, DeleteData),
        (7, InsertData),
        (5, DeleteData),
        (9, InsertData),
        (1, InsertData),
        (2, DeleteData),
    ];
    assert_eq!(
        alternate_insert_delete(&slots),
        vec![
            (1, InsertData),
            (2, DeleteData),
            (7, InsertData),
            (5, DeleteData),
            (9, InsertData),
            (30, DeleteData)
        ]
    );
    let lopsided = vec![(3, InsertData), (1, InsertData), (2, InsertData), (9, DeleteData)];
    assert_eq!(alternate_insert_delete(&lopsided), vec![(1, InsertData), (9, DeleteData)]);
}

#[test]
fn odd_number_of_queries_cannot_take_turns() {
    let slots = expand_query_specs(&[spec(InsertData, 2, 10), spec(DeleteData, 1, 20)]);
    assert_eq!(
        order_slots(slots.clone(), OutputOrder::SortedSizeAscAlternateInsertDelete),
        Err(QueryError::OddNumberOfQueries)
    );
    assert_eq!(order_slots(slots.clone(), OutputOrder::AsSpecified), Ok(slots));
}

#[test]
fn sorting_by_size_is_stable() {
    let slots = vec![(5, DeleteData), (3, InsertData), (5, InsertData), (3, DeleteData), (4, InsertData)];
    assert_eq!(
        order_slots(slots.clone(), OutputOrder::SortedSizeAsc).unwrap(),
        vec![(3, InsertData), (3, DeleteData), (4, InsertData), (5, DeleteData), (5, InsertData)]
    );
    assert_eq!(
        order_slots(slots.clone(), OutputOrder::SortedSizeDesc).unwrap(),
        vec![(5, DeleteData), (5, InsertData), (4, InsertData), (3, InsertData), (3, DeleteData)]
    );
    assert_eq!(stable_sort_by_size(&[], true), vec![]);
}

#[test]
fn shuffling_keeps_the_slots() {
    let slots: Vec<(usize, QueryType)> =
        (0..50).map(|i| (i, if i % 3 == 0 { InsertData } else { DeleteData })).collect();
    let mut shuffled = order_slots(slots.clone(), OutputOrder::Randomized).unwrap();
    shuffled.sort_by_key(|slot| slot.0);
    assert_eq!(shuffled, slots);
}

#[test]
fn insertion_with_prepare_file() {
    let triples: Vec<[&[u8]; 3]> = vec![[b"S", b"P", b"O"]];
    let queries = [Query { query_type: InsertData, expected_size: Some(1), triples }];
    let out = write_update_data_queries(&queries, Some(OutputFormat::Query));
    assert_eq!(out.query, b"INSERT DATA { S P O . }\n".to_vec());
    assert_eq!(out.prepare, b"DELETE DATA { S P O . }\n".to_vec());
    assert!(out.mismatches.is_empty());
    let out = write_update_data_queries(&queries, Some(OutputFormat::NTriples));
    assert_eq!(out.query, b"INSERT DATA { S P O . }\n".to_vec());
    assert_eq!(out.prepare, b"S P O .\n".to_vec());
    let out = write_update_data_queries(&queries, None);
    assert_eq!(out.query, b"INSERT DATA { S P O . }\n".to_vec());
    assert!(out.prepare.is_empty());
}

#[test]
fn deletion_writes_no_prepare_text() {
    let triples: Vec<[&[u8]; 3]> = vec![[b"<a>", b"<p>", b"\"x y\""], [b"<b>", b"<p>", b"<c>"]];
    let queries = [
        Query { query_type: DeleteData, expected_size: Some(3), triples },
        Query { query_type: InsertData, expected_size: None, triples: vec![] },
        Query { query_type: DeleteData, expected_size: Some(1), triples: vec![] },
    ];
    let out = write_update_data_queries(&queries, Some(OutputFormat::Query));
    assert_eq!(
        out.query,
        b"DELETE DATA { <a> <p> \"x y\" . <b> <p> <c> . }\nINSERT DATA { }\nDELETE DATA { }\n".to_vec()
    );
    assert_eq!(out.prepare, b"DELETE DATA { }\n".to_vec());
    assert_eq!(
        out.mismatches,
        vec![
            SizeMismatch { query: 0, requested: 3, actual: 2 },
            SizeMismatch { query: 2, requested: 1, actual: 0 }
        ]
    );
    let plain = write_ntriples_file(&queries);
    assert_eq!(plain.query, b"<a> <p> \"x y\" .\n<b> <p> <c> .\n".to_vec());
    assert!(plain.prepare.is_empty());
    assert_eq!(plain.mismatches, out.mismatches);
}

#[test]
fn workload_over_a_sample() {
    let (frozen, triples) = dataset(b"<a> <p> <1> .\n<b> <p> <2> .\n<c> <p> <3> .\n<d> <p> <4> .\n");
    assert!(frozen.knows_all_triples(triples.as_slice()));
    let mut generator = random_distinct_triple_generator(&triples, 4);
    let specs = [spec(InsertData, 1, 3), spec(DeleteData, 1, 2)];
    let out = generate_queries(&specs, OutputFormat::NTriples, &frozen, &mut generator, OutputOrder::AsSpecified)
        .unwrap();
    assert_eq!(
        out.query,
        b"INSERT DATA { <a> <p> <1> . <b> <p> <2> . <c> <p> <3> . }\nDELETE DATA { <d> <p> <4> . }\n".to_vec()
    );
    assert_eq!(out.prepare, b"<a> <p> <1> .\n<b> <p> <2> .\n<c> <p> <3> .\n".to_vec());
    assert_eq!(out.mismatches, vec![SizeMismatch { query: 1, requested: 2, actual: 1 }]);
}

#[test]
fn workload_of_odd_length_cannot_take_turns() {
    let (frozen, triples) = dataset(b"<a> <p> <1> .\n");
    let mut generator = random_distinct_triple_generator(&triples, 1);
    let r = generate_queries(
        &[spec(InsertData, 1, 1)],
        OutputFormat::Query,
        &frozen,
        &mut generator,
        OutputOrder::SortedSizeAscAlternateInsertDelete,
    );
    assert_eq!(r.err(), Some(QueryError::OddNumberOfQueries));
}

#[test]
fn planned_workload_over_changesets() {
    let (frozen, triples) = dataset(b"<a> <p> <1> .\n<b> <p> <2> .\n<c> <p> <3> .\n");
    let all = triples.as_slice();
    let changesets =
        [CompressedRdfTriples::new(vec![all[0], all[1]]), CompressedRdfTriples::new(vec![all[2]])];
    let mut generator = as_is_changeset_triple_generator(&changesets);
    let out = generate_planned_queries(
        &[(1, DeleteData), (1, InsertData)],
        OutputFormat::Query,
        &frozen,
        &mut generator,
    );
    assert_eq!(
        out.query,
        b"DELETE DATA { <c> <p> <3> . }\nINSERT DATA { <a> <p> <1> . <b> <p> <2> . }\n".to_vec()
    );
    assert_eq!(out.prepare, b"DELETE DATA { <a> <p> <1> . <b> <p> <2> . }\n".to_vec());
    assert_eq!(out.mismatches, vec![SizeMismatch { query: 1, requested: 1, actual: 2 }]);
}

#[test]
fn planned_workload_with_batches_at_hand() {
    let (frozen, triples) = dataset(b"<a> <p> <1> .\n<b> <p> <2> .\n");
    let all = triples.as_slice();
    let out = write_planned_queries(
        &[(2, InsertData), (1, DeleteData), (0, InsertData)],
        &[vec![all[1], all[0]], vec![], vec![]],
        OutputFormat::Query,
        &frozen,
    );
    assert_eq!(
        out.query,
        b"INSERT DATA { <b> <p> <2> . <a> <p> <1> . }\nDELETE DATA { }\nINSERT DATA { }\n".to_vec()
    );
    assert_eq!(
        out.prepare,
        b"DELETE DATA { <b> <p> <2> . <a> <p> <1> . }\nDELETE DATA { }\n".to_vec()
    );
    assert_eq!(out.mismatches, vec![SizeMismatch { query: 1, requested: 1, actual: 0 }]);
}

#[test]
fn replicated_files() {
    let (frozen, triples) = dataset(b"<a> <p> <1> .\n<b> <p> <2> .\n<c> <p> <3> .\n");
    let all = triples.as_slice();
    let added = CompressedRdfTriples::new(vec![all[0], all[1]]);
    let removed = CompressedRdfTriples::new(vec![all[2], all[1]]);
    let mut exclude = CompressedRdfTriples::new(vec![all[1]]);
    exclude.sort_in_place();
    let inputs = [(InsertData, &added), (DeleteData, &removed)];
    assert!(can_replicate(&frozen, None, &inputs));
    assert!(can_replicate(&frozen, Some(&exclude), &inputs));
    let unknown = CompressedRdfTriples::new(vec![all[1], [1, 2, 3]]);
    assert!(!can_replicate(&frozen, None, &[(InsertData, &unknown)]));
    assert!(!can_replicate(&frozen, Some(&exclude), &[(InsertData, &unknown)]));
    let known_once_excluded = CompressedRdfTriples::new(vec![all[1]]);
    assert!(can_replicate(&frozen, Some(&exclude), &[(InsertData, &known_once_excluded)]));
    assert_eq!(
        generate_linear_no_size_hint(&frozen, None, &inputs, OutputFormat::Query),
        b"INSERT DATA { <a> <p> <1> . <b> <p> <2> . }\nDELETE DATA { <c> <p> <3> . <b> <p> <2> . }\n"
            .to_vec()
    );
    assert_eq!(
        generate_linear_no_size_hint(&frozen, Some(&exclude), &inputs, OutputFormat::Query),
        b"INSERT DATA { <a> <p> <1> . }\nDELETE DATA { <c> <p> <3> . }\n".to_vec()
    );
    assert_eq!(
        generate_linear_no_size_hint(&frozen, Some(&exclude), &inputs, OutputFormat::NTriples),
        b"<a> <p> <1> .\n<c> <p> <3> .\n".to_vec()
    );
}

#[test]
fn kinds_of_changeset_files() {
    assert_eq!(query_type_of_file_name(b"000001.added.compressed_nt"), Some(InsertData));
    assert_eq!(query_type_of_file_name(b"000001.removed.compressed_nt"), Some(DeleteData));
    assert_eq!(query_type_of_file_name(b"added.compressed_nt"), Some(InsertData));
    assert_eq!(query_type_of_file_name(b"dataset.compressed_nt"), None);
    assert_eq!(query_type_of_file_name(b"added.nt"), None);
    assert_eq!(query_type_of_file_name(b""), None);
}

#[test]
fn sample_given_before_is_walked_in_order() {
    let (_, triples) = dataset(b"<a> <p> <1> .\n<b> <p> <2> .\n<c> <p> <3> .\n");
    let generator = RandomDistinctGenerator::from_indices(&triples, vec![0, 2]);
    let mut generator = generator;
    assert_eq!(generator.next_batch(1), vec![triples.as_slice()[0]]);
    assert_eq!(generator.next_batch(5), vec![triples.as_slice()[2]]);
    assert_eq!(generator.next_batch(5), Vec::<[u64; 3]>::new());
}
