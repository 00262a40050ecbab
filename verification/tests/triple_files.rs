use sparql_update_gen::byte_order::{
    byte_order_of_one, native_byte_order, push_u64, read_u64, ByteOrder,
};
use sparql_update_gen::error::FormatError;
use sparql_update_gen::triples::{
    CompressedRdfTriples, TripleStats, COMPRESSED_TRIPLE_FILE_EXTENSION,
    UNCOMPRESSED_TRIPLE_FILE_EXTENSION,
};

#[test]
fn integers_in_both_byte_orders() {
    let mut out = vec![0xff];
    push_u64(&mut out, 0x0102030405060708, ByteOrder::Little);
    push_u64(&mut out, 0x0102030405060708, ByteOrder::Big);
    assert_eq!(out, vec![0xff, 8, 7, 6, 5, 4, 3, 2, 1, 1, 2, 3, 4, 5, 6, 7, 8]);
    assert_eq!(read_u64(&out, 1, ByteOrder::Little), 0x0102030405060708);
    assert_eq!(read_u64(&out, 9, ByteOrder::Big), 0x0102030405060708);
    assert_eq!(read_u64(&out, 1, ByteOrder::Big), 0x0807060504030201);
}

#[test]
fn byte_order_is_read_off_the_bytes_of_one() {
    assert_eq!(byte_order_of_one(&[1, 0, 0, 0, 0, 0, 0, 0]), ByteOrder::Little);
    assert_eq!(byte_order_of_one(&[0, 0, 0, 0, 0, 0, 0, 1]), ByteOrder::Big);
    let native = native_byte_order();
    assert_eq!(native, byte_order_of_one(&1u64.to_ne_bytes()));
    let mut out = Vec::new();
    push_u64(&mut out, 0x0102030405060708, native);
    assert_eq!(out, 0x0102030405060708u64.to_ne_bytes().to_vec());
}

#[test]
fn triple_file_layout() {
    let triples = CompressedRdfTriples::new(vec![[1, 2, 3], [0x0100, 0, u64::MAX]]);
    let bytes = triples.to_bytes(ByteOrder::Little);
    let mut expected = Vec::new();
    for word in [1u64, 2, 3, 0x0100, 0, u64::MAX] {
        expected.extend_from_slice(&word.to_le_bytes());
    }
    assert_eq!(bytes, expected);
    let big = triples.to_bytes(ByteOrder::Big);
    assert_eq!(&big[0..8], &[0, 0, 0, 0, 0, 0, 0, 1]);
    let back = CompressedRdfTriples::load(&bytes, ByteOrder::Little).unwrap();
    assert_eq!(back.as_slice(), triples.as_slice());
    let back = CompressedRdfTriples::load(&big, ByteOrder::Big).unwrap();
    assert_eq!(back.as_slice(), triples.as_slice());
}

#[test]
fn triple_file_of_broken_size_is_refused() {
    assert_eq!(
        CompressedRdfTriples::load(&[0u8; 25], ByteOrder::Little).err(),
        Some(FormatError::TripleFileSize)
    );
    assert_eq!(
        CompressedRdfTriples::load(&[0u8; 23], ByteOrder::Big).err(),
        Some(FormatError::TripleFileSize)
    );
    let empty = CompressedRdfTriples::load(&[], ByteOrder::Little).unwrap();
    assert_eq!(empty.len(), 0);
    assert!(empty.is_empty());
}

#[test]
fn sorting_keeps_the_triples() {
    let mut triples =
        CompressedRdfTriples::new(vec![[2, 0, 0], [1, 9, 9], [1, 9, 8], [2, 0, 0], [0, 7, 1]]);
    assert!(!triples.is_sorted());
    let size = triples.to_bytes(ByteOrder::Little).len();
    triples.sort_in_place();
    assert!(triples.is_sorted());
    assert_eq!(
        triples.as_slice(),
        &[[0, 7, 1], [1, 9, 8], [1, 9, 9], [2, 0, 0], [2, 0, 0]]
    );
    assert_eq!(triples.to_bytes(ByteOrder::Little).len(), size);
    assert_eq!(*triples.get(1), [1, 9, 8]);
}

#[test]
fn sorting_agrees_with_the_order_of_arrays() {
    let mut state: u64 = 0x2545f4914f6cdd1d;
    let mut next = || {
        state ^= state << 13;
        state ^= state >> 7;
        state ^= state << 17;
        state % 7
    };
    let all: Vec<[u64; 3]> = (0..1000).map(|_| [next(), next(), next()]).collect();
    let mut expected = all.clone();
    expected.sort();
    let mut triples = CompressedRdfTriples::new(all);
    triples.sort_in_place();
    assert_eq!(triples.as_slice(), expected.as_slice());
    assert!(triples.is_sorted());
}

#[test]
fn order_is_by_subject_then_predicate_then_object() {
    assert!(CompressedRdfTriples::new(vec![[1, 5, 9], [1, 6, 0], [2, 0, 0]]).is_sorted());
    assert!(CompressedRdfTriples::new(vec![[1, 5, 9], [1, 5, 9]]).is_sorted());
    assert!(!CompressedRdfTriples::new(vec![[1, 6, 0], [1, 5, 9]]).is_sorted());
    assert!(!CompressedRdfTriples::new(vec![[1, 5, 9], [1, 5, 8]]).is_sorted());
    assert!(CompressedRdfTriples::new(vec![]).is_sorted());
}

#[test]
fn contains_finds_exactly_the_triples_of_a_sorted_file() {
    let all: Vec<[u64; 3]> = (0..40).map(|i| [i / 9, (i / 3) % 3, 2 * (i % 3)]).collect();
    let triples = CompressedRdfTriples::new(all.clone());
    assert!(triples.is_sorted());
    for s in 0..6 {
        for p in 0..4 {
            for o in 0..6 {
                assert_eq!(triples.contains(&[s, p, o]), all.contains(&[s, p, o]));
            }
        }
    }
    assert!(!CompressedRdfTriples::new(vec![]).contains(&[0, 0, 0]));
}

#[test]
fn only_triples_of_the_file_are_found() {
    let unsorted = CompressedRdfTriples::new(vec![[9, 0, 0], [1, 0, 0], [5, 0, 0], [3, 0, 0]]);
    assert!(!unsorted.is_sorted());
    for s in 0..12 {
        if unsorted.contains(&[s, 0, 0]) {
            assert!(unsorted.as_slice().contains(&[s, 0, 0]));
        }
    }
    let other = CompressedRdfTriples::new((0..12).map(|s| [s, 0, 0]).collect());
    assert!(unsorted.count_contained(&other) <= 4);
}

#[test]
fn stats_count_different_terms() {
    let triples = CompressedRdfTriples::new(vec![[1, 2, 3], [1, 2, 4], [5, 2, 3], [1, 2, 3]]);
    assert_eq!(
        triples.stats(),
        TripleStats { triples: 4, subjects: 2, predicates: 1, objects: 2 }
    );
    assert_eq!(
        CompressedRdfTriples::new(vec![]).stats(),
        TripleStats { triples: 0, subjects: 0, predicates: 0, objects: 0 }
    );
}

#[test]
fn contained_triples_are_counted() {
    let main = CompressedRdfTriples::new(vec![[1, 1, 1], [2, 2, 2], [3, 3, 3]]);
    let other = CompressedRdfTriples::new(vec![[3, 3, 3], [4, 4, 4], [1, 1, 1], [3, 3, 3]]);
    assert_eq!(main.count_contained(&other), 3);
    assert_eq!(other.count_contained(&CompressedRdfTriples::new(vec![])), 0);
}

#[test]
fn file_extensions() {
    assert_eq!(COMPRESSED_TRIPLE_FILE_EXTENSION, "compressed_nt");
    assert_eq!(UNCOMPRESSED_TRIPLE_FILE_EXTENSION, "nt");
}
