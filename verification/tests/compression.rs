use sparql_update_gen::byte_order::{native_byte_order, ByteOrder};
use sparql_update_gen::compressor::RdfTripleCompressor;
use sparql_update_gen::decompressor::RdfTripleDecompressor;
use sparql_update_gen::error::FormatError;
use sparql_update_gen::ntriples::{first_malformed_line, lines_of, parse_raw_line, RawLine};
use sparql_update_gen::triples::CompressedRdfTriples;

const TWO_LINES: &[u8] = b"<http://x> <http://p> <http://y> .\n<http://x> <http://p> \"lit\" .\n";

fn decompress(compressor: &RdfTripleCompressor, file: &[u8], order: ByteOrder) -> Vec<u8> {
    let state = compressor.save_state(order).expect("dictionary fits in memory");
    let frozen = RdfTripleDecompressor::load_state(&state, order).expect("valid dictionary file");
    let triples = CompressedRdfTriples::load(file, order).expect("whole records");
    assert!(frozen.knows_all_triples(triples.as_slice()));
    frozen.decompress_rdf_triple_file(&triples)
}

#[test]
fn round_trip_without_parser() {
    for order in [ByteOrder::Little, ByteOrder::Big, native_byte_order()] {
        let mut compressor = RdfTripleCompressor::new();
        let (file, rejected) = compressor.compress_rdf_triple_file(TWO_LINES, false, false, order);
        assert_eq!(file.len(), 48);
        assert!(rejected.is_empty());
        assert_eq!(decompress(&compressor, &file, order), TWO_LINES.to_vec());
    }
}

#[test]
fn round_trip_with_parser() {
    let order = ByteOrder::Little;
    let mut compressor = RdfTripleCompressor::new();
    let (file, rejected) = compressor.compress_rdf_triple_file(TWO_LINES, false, true, order);
    assert_eq!(file.len(), 48);
    assert!(rejected.is_empty());
    assert_eq!(decompress(&compressor, &file, order), TWO_LINES.to_vec());
}

#[test]
fn round_trip_skips_comments_and_empty_lines() {
    let input = b"# a comment\n\n<http://x> <http://p> <http://y> .\n_:b <http://p> <http://y> .\n<http://x> <http://p> \"a b  c\" .";
    let order = ByteOrder::Little;
    let mut compressor = RdfTripleCompressor::new();
    let (file, _) = compressor.compress_rdf_triple_file(input, false, false, order);
    let expected = b"<http://x> <http://p> <http://y> .\n<http://x> <http://p> \"a b  c\" .\n";
    assert_eq!(decompress(&compressor, &file, order), expected.to_vec());
}

#[test]
fn blank_node_subject_is_skipped() {
    let input = b"_:b1 <http://p> <http://y> .\n";
    let mut raw = RdfTripleCompressor::new();
    assert_eq!(raw.compress_rdf_triple_file(input, false, false, ByteOrder::Little).0.len(), 0);
    let mut parsed = RdfTripleCompressor::new();
    let (file, rejected) = parsed.compress_rdf_triple_file(input, false, true, ByteOrder::Little);
    assert_eq!(file.len(), 0);
    assert!(rejected.is_empty());
}

#[test]
fn blank_node_object_is_skipped() {
    let input = b"<http://x> <http://p> _:b1 .\n";
    let mut raw = RdfTripleCompressor::new();
    assert!(raw.compress_raw_rdf_triple_file(input, false).is_empty());
    let mut parsed = RdfTripleCompressor::new();
    assert!(parsed.compress_parsed_rdf_triple_file(input, false).0.is_empty());
}

#[test]
fn parser_drops_rejected_lines_and_goes_on() {
    let input = b"<http://x> <http://p> <http://y> .\nthis is no statement\n<http://x> <http://p> \"lit\" .\n";
    let mut compressor = RdfTripleCompressor::new();
    let (triples, rejected) = compressor.compress_parsed_rdf_triple_file(input, false);
    assert_eq!(triples.len(), 2);
    assert_eq!(rejected.len(), 1);
    assert!(rejected[0].starts_with(b"unexpected character 't'"));
    assert!(String::from_utf8(rejected[0].clone()).unwrap().contains("line 2"));
    let state = compressor.save_state(ByteOrder::Little).unwrap();
    let frozen = RdfTripleDecompressor::load_state(&state, ByteOrder::Little).unwrap();
    let text = frozen.decompress_rdf_triple_file(&CompressedRdfTriples::new(triples));
    assert_eq!(text, TWO_LINES.to_vec());
}

#[test]
fn rejected_records_are_reported_in_order() {
    let input = b"<a> <p> .\n<http://x> <http://p> <http://y> .\n\"lit\" <http://p> <http://y> .\n";
    let mut compressor = RdfTripleCompressor::new();
    let (file, rejected) = compressor.compress_rdf_triple_file(input, false, true, ByteOrder::Little);
    assert_eq!(file.len(), 24);
    assert_eq!(rejected.len(), 2);
    assert!(String::from_utf8(rejected[0].clone()).unwrap().contains("line 1"));
    assert!(String::from_utf8(rejected[1].clone()).unwrap().contains("line 3"));
}

#[test]
fn same_triple_five_times() {
    let line: &[u8] = b"<http://x> <http://p> <http://y> .\n";
    let input = line.repeat(5);
    let mut with_filter = RdfTripleCompressor::new();
    assert_eq!(
        with_filter.compress_rdf_triple_file(&input, true, false, ByteOrder::Little).0.len(),
        24
    );
    let mut without_filter = RdfTripleCompressor::new();
    assert_eq!(
        without_filter.compress_rdf_triple_file(&input, false, false, ByteOrder::Little).0.len(),
        5 * 24
    );
}

#[test]
fn filter_keeps_first_occurrences_in_order() {
    let input = b"<a> <p> <b> .\n<c> <p> <d> .\n<a> <p> <b> .\n<e> <p> <f> .\n<c> <p> <d> .\n";
    let mut plain = RdfTripleCompressor::new();
    let all = plain.compress_raw_rdf_triple_file(input, false);
    let mut filtering = RdfTripleCompressor::new();
    let kept = filtering.compress_raw_rdf_triple_file(input, true);
    assert_eq!(kept, vec![all[0], all[1], all[3]]);
}

#[test]
fn filter_remembers_earlier_files() {
    let input = b"<a> <p> <b> .\n";
    let mut compressor = RdfTripleCompressor::new();
    assert_eq!(compressor.compress_raw_rdf_triple_file(input, true).len(), 1);
    assert_eq!(compressor.compress_raw_rdf_triple_file(input, true).len(), 0);
    assert_eq!(compressor.compress_raw_rdf_triple_file(input, false).len(), 1);
}

#[test]
fn found_new_triple_is_true_once() {
    let mut compressor = RdfTripleCompressor::new();
    assert!(compressor.found_new_triple([1, 2, 3]));
    assert!(!compressor.found_new_triple([1, 2, 3]));
    assert!(compressor.found_new_triple([3, 2, 1]));
}

#[test]
fn identifiers_are_hashes_of_the_terms() {
    let mut compressor = RdfTripleCompressor::new();
    let x = compressor.intern(b"<http://x>");
    let y = compressor.intern(b"<http://y>");
    assert_ne!(x, y);
    assert_eq!(compressor.intern(b"<http://x>"), x);
    let mut other = RdfTripleCompressor::new();
    assert_eq!(other.intern(b"<http://y>"), y);
    let triple = compressor.compress_raw_rdf_triple([b"<http://x>", b"<http://p>", b"<http://y>"]);
    assert_eq!(triple[0], x);
    assert_eq!(triple[2], y);
    assert_ne!(triple[1], x);
    assert_eq!(compressor.len(), 3);
    assert_eq!(compressor.resolve(y), Some(&b"<http://y>"[..]));
    assert_eq!(compressor.resolve(triple[1]), Some(&b"<http://p>"[..]));
    assert_eq!(other.resolve(x), None);
}

#[test]
fn interning_after_reload_gives_the_same_identifier() {
    let order = ByteOrder::Little;
    let mut compressor = RdfTripleCompressor::new();
    let before = compressor.compress_raw_rdf_triple_file(b"<s> <p> <o> .\n", false);
    let state = compressor.save_state(order).unwrap();
    let frozen = RdfTripleDecompressor::load_state(&state, order).unwrap();
    let mut reloaded = RdfTripleCompressor::from_decompressor(frozen);
    let after = reloaded.compress_raw_rdf_triple_file(b"<s> <p> <o> .\n", false);
    assert_eq!(before, after);
    assert_eq!(reloaded.save_state(order).unwrap(), state);
}

#[test]
fn frozen_dictionary_is_sorted_and_contiguous() {
    let mut compressor = RdfTripleCompressor::new();
    compressor.compress_raw_rdf_triple_file(b"<s> <p> <o> .\n<s2> <p> <o2> .\n", false);
    let state = compressor.save_state(ByteOrder::Little).unwrap();
    let header_size = u64::from_le_bytes(state[0..8].try_into().unwrap()) as usize;
    assert_eq!(header_size, 5 * 24);
    let word = |at: usize| u64::from_le_bytes(state[at..at + 8].try_into().unwrap());
    let mut total = 0;
    for i in 0..5 {
        let at = 8 + 24 * i;
        assert_eq!(word(at + 8), total);
        total = word(at + 16);
        if i > 0 {
            assert!(word(at - 24) < word(at));
        }
    }
    assert_eq!(total as usize, "<s><p><o><s2><o2>".len());
    assert_eq!(state.len(), 8 + header_size + total as usize);
}

#[test]
fn empty_dictionary_file() {
    let compressor = RdfTripleCompressor::new();
    let state = compressor.save_state(ByteOrder::Big).unwrap();
    assert_eq!(state, vec![0u8; 8]);
    let frozen = RdfTripleDecompressor::load_state(&state, ByteOrder::Big).unwrap();
    assert_eq!(frozen.len(), 0);
    assert!(frozen.resolve(7).is_none());
    assert!(frozen.decompress_rdf_triple([1, 2, 3]).is_none());
}

fn dictionary_file(records: &[[u64; 3]], data: &[u8]) -> Vec<u8> {
    let mut file = Vec::new();
    file.extend_from_slice(&(24 * records.len() as u64).to_le_bytes());
    for record in records {
        for word in record {
            file.extend_from_slice(&word.to_le_bytes());
        }
    }
    file.extend_from_slice(data);
    file
}

#[test]
fn dictionary_file_is_resolved() {
    let file = dictionary_file(&[[5, 0, 2], [9, 2, 5]], b"abcde");
    let frozen = RdfTripleDecompressor::load_state(&file, ByteOrder::Little).unwrap();
    assert_eq!(frozen.resolve(5), Some(&b"ab"[..]));
    assert_eq!(frozen.resolve(9), Some(&b"cde"[..]));
    assert_eq!(frozen.resolve(6), None);
    assert_eq!(frozen.search_header(9), Some(&[9, 2, 5]));
    assert_eq!(frozen.decompress_rdf_triple([9, 5, 9]), Some([&b"cde"[..], &b"ab"[..], &b"cde"[..]]));
    assert_eq!(frozen.decompress_rdf_triple([9, 5, 1]), None);
    assert!(!frozen.knows_all_triples(&[[9, 5, 9], [9, 5, 1]]));
    assert_eq!(frozen.to_bytes(ByteOrder::Little), file);
}

#[test]
fn dictionary_file_errors() {
    let load = |file: &[u8]| RdfTripleDecompressor::load_state(file, ByteOrder::Little).err();
    assert_eq!(load(b"1234567"), Some(FormatError::DictionaryTruncated));
    let mut odd = dictionary_file(&[[5, 0, 2]], b"ab");
    odd[0] = 23;
    assert_eq!(load(&odd), Some(FormatError::DictionaryHeaderSize));
    let mut short = dictionary_file(&[[5, 0, 2]], b"ab");
    short[0] = 48;
    assert_eq!(load(&short), Some(FormatError::DictionaryTruncated));
    assert_eq!(
        load(&dictionary_file(&[[9, 0, 2], [5, 2, 5]], b"abcde")),
        Some(FormatError::DictionaryOrder)
    );
    assert_eq!(
        load(&dictionary_file(&[[5, 0, 2], [5, 2, 5]], b"abcde")),
        Some(FormatError::DictionaryOrder)
    );
    assert_eq!(
        load(&dictionary_file(&[[5, 0, 2], [9, 2, 6]], b"abcde")),
        Some(FormatError::DictionaryOffsets)
    );
    assert_eq!(
        load(&dictionary_file(&[[5, 0, 2], [9, 3, 5]], b"abcde")),
        Some(FormatError::DictionaryOffsets)
    );
    assert_eq!(
        load(&dictionary_file(&[[5, 2, 1]], b"abcde")),
        Some(FormatError::DictionaryOffsets)
    );
}

#[test]
fn lines_are_cut_at_line_ends() {
    assert_eq!(lines_of(b""), Vec::<&[u8]>::new());
    assert_eq!(lines_of(b"a\nb\n"), vec![&b"a"[..], &b"b"[..]]);
    assert_eq!(lines_of(b"a\nb"), vec![&b"a"[..], &b"b"[..]]);
    assert_eq!(lines_of(b"a\n\nb"), vec![&b"a"[..], &b""[..], &b"b"[..]]);
    assert_eq!(lines_of(b"\n"), vec![&b""[..]]);
}

#[test]
fn raw_lines_are_split_at_the_first_two_spaces() {
    assert!(matches!(parse_raw_line(b""), RawLine::Skipped));
    assert!(matches!(parse_raw_line(b"# <s> <p> <o> ."), RawLine::Skipped));
    assert!(matches!(parse_raw_line(b"_:s <p> <o> ."), RawLine::Skipped));
    assert!(matches!(parse_raw_line(b"<s> <p> _:o ."), RawLine::Skipped));
    assert!(matches!(parse_raw_line(b"<s>"), RawLine::Malformed));
    assert!(matches!(parse_raw_line(b"<s> <p>"), RawLine::Malformed));
    assert!(matches!(parse_raw_line(b"<s> <p> <o>."), RawLine::Malformed));
    assert!(matches!(parse_raw_line(b"<s> <p> <o> .\r"), RawLine::Malformed));
    match parse_raw_line(b"<s> <p> \"a b\" .") {
        RawLine::Triple(raw) => assert_eq!(raw, [&b"<s>"[..], &b"<p>"[..], &b"\"a b\""[..]]),
        _ => panic!("a statement"),
    }
    match parse_raw_line(b"<s> <p>  .") {
        RawLine::Triple(raw) => assert_eq!(raw, [&b"<s>"[..], &b"<p>"[..], &b""[..]]),
        _ => panic!("a statement with an empty object"),
    }
}

#[test]
fn first_malformed_line_is_found() {
    let good = lines_of(b"<s> <p> <o> .\n\n# c\n");
    assert_eq!(first_malformed_line(&good), None);
    let bad = lines_of(b"<s> <p> <o> .\n<s> <p>\n<s>\n");
    assert_eq!(first_malformed_line(&bad), Some(1));
}
