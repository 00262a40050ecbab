//! What holds across the parts of the library: of compressing and
//! decompressing, of the filter for repeated triples, of a dictionary that is
//! saved and loaded again, and of the orders of a workload.

use crate::byte_order::ByteOrder;
use crate::compressor::{
    compressed, compressed_all, interned, is_dictionary_file_of, learned_all, survivors,
    triple_id, triple_ids,
};
use crate::decompressor::{
    decompressed, decompressed_all, dictionary_file_error, dictionary_of, header_ascending,
    header_offsets_valid, stored_data, stored_header,
};
use crate::hashing::term_hash;
use crate::ntriples::{
    accepted_triples, lemma_statement_of_raw_line, ntriples_text, raw_line_fields,
    raw_line_triple, split_lines, TermTriple, NEWLINE,
};
use crate::ordering::{alternated, is_order_of, sizes_of_type};
use crate::sizes::{lemma_sorted_form_exists, sorted_form};
use crate::sparql::{OutputOrder, QuerySlot, QueryType};
use crate::triples::{
    lemma_stored_triples_of_bytes, stored_triples, triples_bytes, CompressedTriple,
    TripleElementId, TripleId,
};
use vstd::prelude::*;

verus! {

/// Every entry of the dictionary stands under the hash of its term.
pub open spec fn keyed_by_hash(dictionary: Map<TripleElementId, Seq<u8>>) -> bool {
    forall|id: TripleElementId| #[trigger]
        dictionary.contains_key(id) ==> term_hash(dictionary[id]) == id
}

/// The dictionary gives the term back for the term's identifier.
pub open spec fn resolves(dictionary: Map<TripleElementId, Seq<u8>>, term: Seq<u8>) -> bool {
    dictionary.contains_key(term_hash(term)) && dictionary[term_hash(term)] == term
}

/// The term is the subject, the predicate or the object of one of the triples.
pub open spec fn occurs_in(triples: Seq<TermTriple>, term: Seq<u8>) -> bool {
    exists|i: int|
        0 <= i < triples.len() && ((#[trigger] triples[i]).0 == term || triples[i].1 == term
            || triples[i].2 == term)
}

/// The terms of the dictionary and of the triples.
pub open spec fn known_terms(
    dictionary: Map<TripleElementId, Seq<u8>>,
    triples: Seq<TermTriple>,
) -> Set<Seq<u8>> {
    Set::new(|term: Seq<u8>| resolves(dictionary, term) || occurs_in(triples, term))
}

/// No two terms of the set have the same hash.
pub open spec fn free_of_collisions(terms: Set<Seq<u8>>) -> bool {
    forall|a: Seq<u8>, b: Seq<u8>|
        terms.contains(a) && terms.contains(b) && #[trigger] term_hash(a) == #[trigger] term_hash(b)
            ==> a == b
}

/// Every term of the dictionary is in the set.
pub open spec fn values_in(dictionary: Map<TripleElementId, Seq<u8>>, terms: Set<Seq<u8>>) -> bool {
    forall|id: TripleElementId| #[trigger]
        dictionary.contains_key(id) ==> terms.contains(dictionary[id])
}

/// A dictionary that is keyed by hash stays so whatever it learns.
pub proof fn lemma_learned_all_keyed(
    dictionary: Map<TripleElementId, Seq<u8>>,
    triples: Seq<TermTriple>,
)
    requires
        keyed_by_hash(dictionary),
    ensures
        keyed_by_hash(learned_all(dictionary, triples)),
    decreases triples.len(),
{
    if triples.len() > 0 {
        lemma_learned_all_keyed(dictionary, triples.drop_last());
    }
}

/// Interning a term among terms without collisions: afterwards the
/// dictionary gives the term back, and what it gave back before it still does.
pub proof fn lemma_interned(
    dictionary: Map<TripleElementId, Seq<u8>>,
    term: Seq<u8>,
    terms: Set<Seq<u8>>,
)
    requires
        keyed_by_hash(dictionary),
        values_in(dictionary, terms),
        terms.contains(term),
        free_of_collisions(terms),
    ensures
        keyed_by_hash(interned(dictionary, term)),
        values_in(interned(dictionary, term), terms),
        resolves(interned(dictionary, term), term),
        forall|other: Seq<u8>|
            resolves(dictionary, other) ==> resolves(interned(dictionary, term), other),
{
    let after = interned(dictionary, term);
    if dictionary.contains_key(term_hash(term)) {
        let there = dictionary[term_hash(term)];
        assert(terms.contains(there));
        assert(term_hash(there) == term_hash(term));
    }
    assert forall|other: Seq<u8>| resolves(dictionary, other) implies resolves(after, other) by {
        if term_hash(other) == term_hash(term) && !dictionary.contains_key(term_hash(term)) {
            assert(false);
        }
    }
}

/// Compressing triples whose terms, together with those of the dictionary,
/// are free of collisions: afterwards the dictionary gives back every term of
/// every triple.
pub proof fn lemma_learned_all_resolves(
    dictionary: Map<TripleElementId, Seq<u8>>,
    triples: Seq<TermTriple>,
)
    requires
        keyed_by_hash(dictionary),
        free_of_collisions(known_terms(dictionary, triples)),
    ensures
        keyed_by_hash(learned_all(dictionary, triples)),
        values_in(learned_all(dictionary, triples), known_terms(dictionary, triples)),
        forall|term: Seq<u8>|
            resolves(dictionary, term) ==> resolves(learned_all(dictionary, triples), term),
        forall|i: int|
            0 <= i < triples.len() ==> decompressed(
                learned_all(dictionary, triples),
                compressed(#[trigger] triples[i]),
            ) == triples[i],
    decreases triples.len(),
{
    let terms = known_terms(dictionary, triples);
    if triples.len() == 0 {
        assert forall|id: TripleElementId| #[trigger]
            dictionary.contains_key(id) implies terms.contains(dictionary[id]) by {
            assert(resolves(dictionary, dictionary[id]));
        }
    } else {
        let front = triples.drop_last();
        let last = triples.last();
        let fewer = known_terms(dictionary, front);
        assert forall|term: Seq<u8>| fewer.contains(term) implies terms.contains(term) by {
            if occurs_in(front, term) {
                let i = choose|i: int|
                    0 <= i < front.len() && ((#[trigger] front[i]).0 == term || front[i].1 == term
                        || front[i].2 == term);
                assert(triples[i] == front[i]);
            }
        }
        lemma_learned_all_resolves(dictionary, front);
        let d0 = learned_all(dictionary, front);
        assert(values_in(d0, terms));
        assert(triples[triples.len() - 1] == last);
        assert(terms.contains(last.0) && terms.contains(last.1) && terms.contains(last.2));
        lemma_interned(d0, last.0, terms);
        let d1 = interned(d0, last.0);
        lemma_interned(d1, last.1, terms);
        let d2 = interned(d1, last.1);
        lemma_interned(d2, last.2, terms);
        let d3 = interned(d2, last.2);
        assert(d3 == learned_all(dictionary, triples));
        assert forall|i: int| 0 <= i < triples.len() implies decompressed(
            d3,
            compressed(#[trigger] triples[i]),
        ) == triples[i] by {
            let t = triples[i];
            if i < front.len() {
                assert(front[i] == t);
                assert(decompressed(d0, compressed(front[i])) == front[i]);
                assert(resolves(d0, t.0) && resolves(d0, t.1) && resolves(d0, t.2)) by {
                    lemma_resolves_known(dictionary, front, i);
                }
            }
            assert(resolves(d3, t.0) && resolves(d3, t.1) && resolves(d3, t.2));
        }
    }
}

/// After compressing triples that are free of collisions, the dictionary has
/// every term of every triple.
proof fn lemma_resolves_known(
    dictionary: Map<TripleElementId, Seq<u8>>,
    triples: Seq<TermTriple>,
    i: int,
)
    requires
        keyed_by_hash(dictionary),
        free_of_collisions(known_terms(dictionary, triples)),
        0 <= i < triples.len(),
    ensures
        resolves(learned_all(dictionary, triples), triples[i].0),
        resolves(learned_all(dictionary, triples), triples[i].1),
        resolves(learned_all(dictionary, triples), triples[i].2),
    decreases triples.len(),
{
    let terms = known_terms(dictionary, triples);
    let front = triples.drop_last();
    let last = triples.last();
    let fewer = known_terms(dictionary, front);
    assert forall|term: Seq<u8>| fewer.contains(term) implies terms.contains(term) by {
        if occurs_in(front, term) {
            let k = choose|k: int|
                0 <= k < front.len() && ((#[trigger] front[k]).0 == term || front[k].1 == term
                    || front[k].2 == term);
            assert(triples[k] == front[k]);
        }
    }
    lemma_learned_all_resolves(dictionary, front);
    let d0 = learned_all(dictionary, front);
    assert(values_in(d0, terms));
    assert(triples[triples.len() - 1] == last);
    assert(terms.contains(last.0) && terms.contains(last.1) && terms.contains(last.2));
    lemma_interned(d0, last.0, terms);
    let d1 = interned(d0, last.0);
    lemma_interned(d1, last.1, terms);
    let d2 = interned(d1, last.1);
    lemma_interned(d2, last.2, terms);
    if i < front.len() {
        lemma_resolves_known(dictionary, front, i);
        assert(front[i] == triples[i]);
    }
}

/// The lines of an input that hold a statement which is kept, each with a
/// line end, in the order of the input.
pub open spec fn kept_lines(lines: Seq<Seq<u8>>) -> Seq<u8>
    decreases lines.len(),
{
    if lines.len() == 0 {
        Seq::empty()
    } else if raw_line_triple(lines.last()) is Some {
        kept_lines(lines.drop_last()) + lines.last() + seq![NEWLINE]
    } else {
        kept_lines(lines.drop_last())
    }
}

/// The statements that the splitter accepts, written as N-Triples, are the
/// lines they came from.
pub proof fn lemma_accepted_text(lines: Seq<Seq<u8>>)
    ensures
        ntriples_text(accepted_triples(lines)) == kept_lines(lines),
    decreases lines.len(),
{
    if lines.len() > 0 {
        lemma_accepted_text(lines.drop_last());
        if raw_line_triple(lines.last()) is Some {
            let t = raw_line_triple(lines.last())->0;
            assert(raw_line_fields(lines.last()) == Some(t));
            lemma_statement_of_raw_line(lines.last());
            let bigger = accepted_triples(lines.drop_last()).push(t);
            assert(bigger.drop_last() =~= accepted_triples(lines.drop_last()));
            assert(bigger.last() == t);
            assert(ntriples_text(bigger) =~= kept_lines(lines));
        }
    }
}

/// Round trip. An input is compressed without the parser and without the
/// filter, into a dictionary that is keyed by hash; no two terms of the
/// dictionary and the input have the same hash. Then the compressed file,
/// read back and decompressed with the dictionary as it is afterwards, gives
/// the lines of the input that hold a kept statement, byte for byte.
pub proof fn lemma_round_trip(
    dictionary: Map<TripleElementId, Seq<u8>>,
    input: Seq<u8>,
    order: ByteOrder,
)
    requires
        keyed_by_hash(dictionary),
        free_of_collisions(known_terms(dictionary, accepted_triples(split_lines(input)))),
    ensures
        ({
            let triples = accepted_triples(split_lines(input));
            let file = triples_bytes(compressed_all(triples), order);
            let after = learned_all(dictionary, triples);
            &&& file.len() % 24 == 0
            &&& decompressed_all(after, stored_triples(file, order)) == triples
            &&& ntriples_text(decompressed_all(after, stored_triples(file, order))) == kept_lines(
                split_lines(input),
            )
        }),
{
    let triples = accepted_triples(split_lines(input));
    let written = compressed_all(triples);
    let file = triples_bytes(written, order);
    let after = learned_all(dictionary, triples);
    lemma_stored_triples_of_bytes(written, order);
    lemma_learned_all_resolves(dictionary, triples);
    assert(decompressed_all(after, written) =~= triples);
    lemma_accepted_text(split_lines(input));
}

/// A dictionary that was saved and is loaded again. The file holds no error
/// and gives the dictionary that was saved; interning a term that the
/// dictionary has under its hash changes nothing in it, so the term keeps
/// its identifier.
pub proof fn lemma_saved_dictionary(
    dictionary: Map<TripleElementId, Seq<u8>>,
    file: Seq<u8>,
    order: ByteOrder,
    term: Seq<u8>,
)
    requires
        is_dictionary_file_of(dictionary, file, order),
        dictionary.contains_key(term_hash(term)),
    ensures
        dictionary_file_error(file, order) is None,
        dictionary_of(stored_header(file, order), stored_data(file, order)) == dictionary,
        interned(dictionary_of(stored_header(file, order), stored_data(file, order)), term)
            == dictionary,
{
}

/// A dictionary file that holds no error has a header whose identifiers
/// ascend strictly and whose ranges follow each other without a gap.
pub proof fn lemma_dictionary_file_header(file: Seq<u8>, order: ByteOrder, i: int)
    requires
        dictionary_file_error(file, order) is None,
        0 <= i < stored_header(file, order).len() - 1,
    ensures
        stored_header(file, order)[i][0] < stored_header(file, order)[i + 1][0],
        stored_header(file, order)[i][2] == stored_header(file, order)[i + 1][1],
{
    let header = stored_header(file, order);
    assert(header_ascending(header));
    assert(header_offsets_valid(header, stored_data(file, order).len() as int));
    assert(header[i][0] < header[i + 1][0]);
    assert(header[i][2] == header[i + 1][1]);
}

/// The triples of a sequence without those that stand earlier in it too.
pub open spec fn first_occurrences(triples: Seq<CompressedTriple>) -> Seq<CompressedTriple>
    decreases triples.len(),
{
    if triples.len() == 0 {
        Seq::empty()
    } else if triples.drop_last().contains(triples.last()) {
        first_occurrences(triples.drop_last())
    } else {
        first_occurrences(triples.drop_last()).push(triples.last())
    }
}

/// No two different triples of the sequence have the same hash.
pub open spec fn triple_hashes_distinct(triples: Seq<CompressedTriple>) -> bool {
    forall|i: int, j: int|
        0 <= i < triples.len() && 0 <= j < triples.len() && triple_id(#[trigger] triples[i])
            == triple_id(#[trigger] triples[j]) ==> triples[i] == triples[j]
}

/// The first occurrences of a sequence hold every triple of the sequence, once.
pub proof fn lemma_first_occurrences(triples: Seq<CompressedTriple>)
    ensures
        first_occurrences(triples).no_duplicates(),
        forall|t: CompressedTriple| first_occurrences(triples).contains(t) <==> triples.contains(t),
    decreases triples.len(),
{
    if triples.len() > 0 {
        let front = triples.drop_last();
        let last = triples.last();
        lemma_first_occurrences(front);
        let firsts = first_occurrences(front);
        assert forall|t: CompressedTriple|
            first_occurrences(triples).contains(t) <==> triples.contains(t) by {
            if triples.contains(t) {
                let i = choose|i: int| 0 <= i < triples.len() && triples[i] == t;
                if i < front.len() {
                    assert(front[i] == t);
                    assert(front.contains(t));
                }
            }
            if front.contains(t) {
                let i = choose|i: int| 0 <= i < front.len() && front[i] == t;
                assert(triples[i] == t);
            }
            if !front.contains(last) {
                let longer = firsts.push(last);
                if firsts.contains(t) {
                    let i = choose|i: int| 0 <= i < firsts.len() && firsts[i] == t;
                    assert(longer[i] == t);
                }
                if longer.contains(t) {
                    let i = choose|i: int| 0 <= i < longer.len() && longer[i] == t;
                    if i < firsts.len() {
                        assert(firsts[i] == t);
                    }
                }
                assert(longer[firsts.len() as int] == last);
                assert(triples[triples.len() - 1] == last);
            } else {
                assert(triples[triples.len() - 1] == last);
            }
        }
        if !front.contains(last) {
            let longer = firsts.push(last);
            assert forall|i: int, j: int|
                0 <= i < longer.len() && 0 <= j < longer.len() && i != j implies longer[i]
                != longer[j] by {
                if i < firsts.len() && j < firsts.len() {
                    assert(firsts[i] != firsts[j]);
                } else if i < firsts.len() {
                    assert(firsts.contains(firsts[i]));
                } else {
                    assert(firsts.contains(firsts[j]));
                }
            }
        }
    }
}

/// Deduplication. A compressor that has seen no triple, with the filter on,
/// writes each triple where it first occurs and nowhere else, as long as no
/// two different triples have the same hash: the output holds every triple
/// of the input once, in the order of the first occurrences.
pub proof fn lemma_deduplication(triples: Seq<CompressedTriple>)
    requires
        triple_hashes_distinct(triples),
    ensures
        survivors(Set::<TripleId>::empty(), triples) == first_occurrences(triples),
        survivors(Set::<TripleId>::empty(), triples).no_duplicates(),
        forall|t: CompressedTriple|
            survivors(Set::<TripleId>::empty(), triples).contains(t) <==> triples.contains(t),
    decreases triples.len(),
{
    lemma_first_occurrences(triples);
    if triples.len() > 0 {
        let front = triples.drop_last();
        let last = triples.last();
        assert(triples[triples.len() - 1] == last);
        assert(triple_hashes_distinct(front)) by {
            assert forall|i: int, j: int|
                0 <= i < front.len() && 0 <= j < front.len() && triple_id(#[trigger] front[i])
                    == triple_id(#[trigger] front[j]) implies front[i] == front[j] by {
                assert(triples[i] == front[i] && triples[j] == front[j]);
            }
        }
        lemma_deduplication(front);
        assert(triple_ids(front).contains(triple_id(last)) <==> front.contains(last)) by {
            if triple_ids(front).contains(triple_id(last)) {
                let i = choose|i: int|
                    0 <= i < triple_ids(front).len() && triple_ids(front)[i] == triple_id(last);
                assert(triples[i] == front[i]);
                assert(triple_id(triples[i]) == triple_id(triples[triples.len() - 1]));
                assert(front[i] == last);
            }
            if front.contains(last) {
                let i = choose|i: int| 0 <= i < front.len() && front[i] == last;
                assert(triple_ids(front)[i] == triple_id(last));
            }
        }
    }
}

/// Insertions and deletions in turn. In that order the kinds take turns,
/// beginning with an insertion, and among the queries of one kind no query is
/// smaller than one before it.
pub proof fn lemma_alternating_order(input: Seq<QuerySlot>, output: Seq<QuerySlot>)
    requires
        is_order_of(input, OutputOrder::SortedSizeAscAlternateInsertDelete, output),
    ensures
        output.len() % 2 == 0,
        forall|k: int|
            0 <= k < output.len() ==> (#[trigger] output[k]).1 == if k % 2 == 0 {
                QueryType::InsertData
            } else {
                QueryType::DeleteData
            },
        forall|i: int, j: int|
            0 <= i <= j < output.len() && (#[trigger] output[i]).1 == (#[trigger] output[j]).1
                ==> output[i].0 <= output[j].0,
{
    let inserts = sorted_form(sizes_of_type(input, QueryType::InsertData));
    let deletes = sorted_form(sizes_of_type(input, QueryType::DeleteData));
    lemma_sorted_form_exists(sizes_of_type(input, QueryType::InsertData));
    lemma_sorted_form_exists(sizes_of_type(input, QueryType::DeleteData));
    assert(output == alternated(inserts, deletes));
    assert forall|i: int, j: int|
        0 <= i <= j < output.len() && (#[trigger] output[i]).1 == (#[trigger] output[j]).1
        implies output[i].0 <= output[j].0 by {
        if i % 2 == 0 {
            assert(j % 2 == 0);
            assert(inserts[i / 2] <= inserts[j / 2]);
        } else {
            assert(j % 2 != 0);
            assert(deletes[i / 2] <= deletes[j / 2]);
        }
    }
}

} // verus!
