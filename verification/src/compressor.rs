//! The growing dictionary: interns terms, compresses triples, and filters out
//! triples it has seen before.

use crate::byte_order::{push_bytes, ByteOrder};
use crate::decompressor::{
    dictionary_file_bytes, dictionary_of, frozen_size, header_ascending, header_offsets_valid,
    is_sorted_keys_of, keys_ascending, lemma_dictionary_of_more_data, lemma_dictionary_of_push,
    lemma_header_ascending_push, lemma_header_offsets_valid_push, lemma_sorted_keys,
    lemma_terms_len_prefix, record_term, terms_len, HeaderRecord, RdfTripleDecompressor,
};
use crate::hashing::{hash_term, hash_triple, term_hash, triple_hash};
use crate::ntriples::{
    accepted_triples, kept_triples, lines_of, message_views, ntriples_outcomes, parse_ntriples,
    parse_raw_line, parsed_outcome, parsed_outcomes, parsed_terms, raw_line_well_formed,
    raw_lines_well_formed, raw_terms, rejected_messages, rejections_of, slice_views, split_lines,
    ParsedItem, ParsedTriple, RawLine, TermKind, TermTriple,
};
use crate::triples::{
    triples_bytes, CompressedRdfTriples, CompressedTriple, RawTriple, TripleElementId, TripleId,
};
use std::collections::{BTreeMap, HashSet};
use vstd::prelude::*;
use vstd::slice::slice_to_vec;
use vstd::std_specs::btree::{axiom_increasing_seq_meaning, increasing_seq};
use vstd::std_specs::cmp::OrdSpec;
use vstd::std_specs::iter::IteratorSpec;

verus! {

/// A dictionary after it has met a term: a term whose identifier is taken
/// changes nothing, so the first term that came with an identifier stays.
pub open spec fn interned(
    dictionary: Map<TripleElementId, Seq<u8>>,
    term: Seq<u8>,
) -> Map<TripleElementId, Seq<u8>> {
    if dictionary.contains_key(term_hash(term)) {
        dictionary
    } else {
        dictionary.insert(term_hash(term), term)
    }
}

/// A dictionary after it has met the subject, the predicate and the object of a triple.
pub open spec fn learned(
    dictionary: Map<TripleElementId, Seq<u8>>,
    t: TermTriple,
) -> Map<TripleElementId, Seq<u8>> {
    interned(interned(interned(dictionary, t.0), t.1), t.2)
}

/// A dictionary after it has met the triples of a sequence, one after the other.
pub open spec fn learned_all(
    dictionary: Map<TripleElementId, Seq<u8>>,
    triples: Seq<TermTriple>,
) -> Map<TripleElementId, Seq<u8>>
    decreases triples.len(),
{
    if triples.len() == 0 {
        dictionary
    } else {
        learned(learned_all(dictionary, triples.drop_last()), triples.last())
    }
}

/// A triple of terms as the triple of their identifiers.
pub open spec fn compressed(t: TermTriple) -> CompressedTriple {
    [term_hash(t.0), term_hash(t.1), term_hash(t.2)]
}

/// Each triple of a sequence as the triple of its identifiers.
pub open spec fn compressed_all(triples: Seq<TermTriple>) -> Seq<CompressedTriple> {
    triples.map_values(|t: TermTriple| compressed(t))
}

/// The hash by which a compressed triple is recognised.
pub open spec fn triple_id(triple: CompressedTriple) -> TripleId {
    triple_hash(triple[0], triple[1], triple[2])
}

/// The hash of each triple of a sequence.
pub open spec fn triple_ids(triples: Seq<CompressedTriple>) -> Seq<TripleId> {
    triples.map_values(|t: CompressedTriple| triple_id(t))
}

/// The triples that pass the filter: those whose hash is neither in `seen`
/// nor the hash of a triple before them, in their order.
pub open spec fn survivors(seen: Set<TripleId>, triples: Seq<CompressedTriple>) -> Seq<
    CompressedTriple,
>
    decreases triples.len(),
{
    if triples.len() == 0 {
        Seq::empty()
    } else if seen.contains(triple_id(triples.last())) || triple_ids(
        triples.drop_last(),
    ).contains(triple_id(triples.last())) {
        survivors(seen, triples.drop_last())
    } else {
        survivors(seen, triples.drop_last()).push(triples.last())
    }
}

/// The hashes that the filter knows after it has met the triples.
pub open spec fn seen_after(seen: Set<TripleId>, triples: Seq<CompressedTriple>) -> Set<
    TripleId,
> {
    Set::new(|id: TripleId| seen.contains(id) || triple_ids(triples).contains(id))
}

/// The triples that are written: all of them, or with the filter on, those that pass it.
pub open spec fn emitted(
    seen: Set<TripleId>,
    triples: Seq<CompressedTriple>,
    dedup: bool,
) -> Seq<CompressedTriple> {
    if dedup {
        survivors(seen, triples)
    } else {
        triples
    }
}

/// The hashes that the filter knows after a run: with the filter off it
/// learns nothing.
pub open spec fn seen_then(
    seen: Set<TripleId>,
    triples: Seq<CompressedTriple>,
    dedup: bool,
) -> Set<TripleId> {
    if dedup {
        seen_after(seen, triples)
    } else {
        seen
    }
}

/// The dictionary under construction, and the filter for repeated triples.
pub struct RdfTripleCompressor {
    terms: BTreeMap<TripleElementId, Vec<u8>>,
    dedup: HashSet<TripleId>,
}

impl RdfTripleCompressor {
    /// The dictionary: each identifier with the bytes of its term.
    pub closed spec fn dictionary(&self) -> Map<TripleElementId, Seq<u8>> {
        self.terms@.map_values(|term: Vec<u8>| term@)
    }

    /// The hashes of the triples that the filter has let through.
    pub closed spec fn seen(&self) -> Set<TripleId> {
        self.dedup@
    }

    /// A compressor that knows no term and has seen no triple.
    pub fn new() -> (r: Self)
        ensures
            r.dictionary() == Map::<TripleElementId, Seq<u8>>::empty(),
            r.seen() == Set::<TripleId>::empty(),
    {
        let r = RdfTripleCompressor { terms: BTreeMap::new(), dedup: HashSet::new() };
        assert(r.dictionary() =~= Map::<TripleElementId, Seq<u8>>::empty());
        r
    }

    /// Gives the identifier of a term, and enters the term under it unless the
    /// identifier is taken.
    pub fn intern(&mut self, term: &[u8]) -> (id: TripleElementId)
        ensures
            id == term_hash(term@),
            final(self).dictionary() == interned(old(self).dictionary(), term@),
            final(self).seen() == old(self).seen(),
    {
        let id = hash_term(term);
        if !self.terms.contains_key(&id) {
            self.terms.insert(id, slice_to_vec(term));
            assert(self.dictionary() =~= old(self).dictionary().insert(id, term@));
        } else {
            assert(self.dictionary() =~= old(self).dictionary());
        }
        assert(old(self).dictionary().contains_key(id) == old(self).terms@.contains_key(id));
        id
    }

    /// The bytes of the term with the identifier `id`, if the dictionary has it.
    pub fn resolve(&self, id: TripleElementId) -> (r: Option<&[u8]>)
        ensures
            match r {
                Some(term) => self.dictionary().contains_key(id) && term@ == self.dictionary()[id],
                None => !self.dictionary().contains_key(id),
            },
    {
        match self.terms.get(&id) {
            Some(term) => Some(term.as_slice()),
            None => None,
        }
    }

    /// Number of terms.
    pub fn len(&self) -> (n: usize)
        ensures
            n == self.dictionary().dom().len(),
    {
        assert(self.dictionary().dom() =~= self.terms@.dom());
        self.terms.len()
    }

    /// Compresses a triple of raw terms: interns subject, predicate and
    /// object, and gives their identifiers.
    pub fn compress_raw_rdf_triple(&mut self, raw: RawTriple) -> (triple: CompressedTriple)
        ensures
            triple == compressed(raw_terms(raw)),
            final(self).dictionary() == learned(old(self).dictionary(), raw_terms(raw)),
            final(self).seen() == old(self).seen(),
    {
        let subject = self.intern(raw[0]);
        let predicate = self.intern(raw[1]);
        let object = self.intern(raw[2]);
        let triple: CompressedTriple = [subject, predicate, object];
        assert(triple =~= compressed(raw_terms(raw)));
        triple
    }

    /// Tells whether the filter meets the triple for the first time, and
    /// remembers it.
    pub fn found_new_triple(&mut self, triple: CompressedTriple) -> (fresh: bool)
        ensures
            fresh == !old(self).seen().contains(triple_id(triple)),
            final(self).seen() == old(self).seen().insert(triple_id(triple)),
            final(self).dictionary() == old(self).dictionary(),
    {
        let hash = hash_triple(triple);
        self.dedup.insert(hash)
    }
}

impl RdfTripleCompressor {
    /// Writes a compressed triple to `out`, unless the filter is on and has
    /// seen the triple.
    fn emit(
        &mut self,
        triple: CompressedTriple,
        dedup: bool,
        out: &mut Vec<CompressedTriple>,
        Ghost(seen): Ghost<Set<TripleId>>,
        Ghost(before): Ghost<Seq<CompressedTriple>>,
    )
        requires
            old(out)@ == emitted(seen, before, dedup),
            old(self).seen() == seen_then(seen, before, dedup),
        ensures
            final(out)@ == emitted(seen, before.push(triple), dedup),
            final(self).seen() == seen_then(seen, before.push(triple), dedup),
            final(self).dictionary() == old(self).dictionary(),
    {
        let ghost after = before.push(triple);
        proof {
            assert(after.drop_last() =~= before);
            assert(triple_ids(after) =~= triple_ids(before).push(triple_id(triple)));
        }
        if !dedup {
            out.push(triple);
        } else {
            let fresh = self.found_new_triple(triple);
            if fresh {
                out.push(triple);
            }
            proof {
                assert(seen_after(seen, before).contains(triple_id(triple)) == (seen.contains(
                    triple_id(triple),
                ) || triple_ids(before).contains(triple_id(triple))));
                assert(self.seen() =~= seen_after(seen, after)) by {
                    assert forall|id: TripleId|
                        self.seen().contains(id) == seen_after(seen, after).contains(id) by {
                        if triple_ids(after).contains(id) {
                            let k = choose|k: int|
                                0 <= k < triple_ids(after).len() && triple_ids(after)[k] == id;
                            if k < before.len() {
                                assert(triple_ids(before)[k] == id);
                            }
                        }
                        if triple_ids(before).contains(id) {
                            let k = choose|k: int|
                                0 <= k < triple_ids(before).len() && triple_ids(before)[k] == id;
                            assert(triple_ids(after)[k] == id);
                        }
                        if id == triple_id(triple) {
                            assert(triple_ids(after)[before.len() as int] == id);
                        }
                    }
                }
            }
        }
    }

    /// Compresses the statements of lines that the splitter takes.
    ///
    /// Each line is split at its first two spaces, and the statement's end is
    /// taken off the third field. Empty lines, comments and statements about
    /// blank nodes are passed over. The triples come out in the order of the
    /// lines; with `dedup`, a triple that the filter has seen is left out.
    pub fn compress_raw_lines(&mut self, lines: &[&[u8]], dedup: bool) -> (out: Vec<
        CompressedTriple,
    >)
        requires
            raw_lines_well_formed(slice_views(lines@)),
        ensures
            out@ == emitted(
                old(self).seen(),
                compressed_all(accepted_triples(slice_views(lines@))),
                dedup,
            ),
            final(self).dictionary() == learned_all(
                old(self).dictionary(),
                accepted_triples(slice_views(lines@)),
            ),
            final(self).seen() == seen_then(
                old(self).seen(),
                compressed_all(accepted_triples(slice_views(lines@))),
                dedup,
            ),
    {
        let ghost seen = self.seen();
        let ghost dictionary = self.dictionary();
        let ghost all = slice_views(lines@);
        let mut out: Vec<CompressedTriple> = Vec::new();
        let n = lines.len();
        let mut i: usize = 0;
        proof {
            assert(seen_after(seen, Seq::<CompressedTriple>::empty()) =~= seen);
        }
        while i < n
            invariant
                i <= n,
                n == lines@.len(),
                all == slice_views(lines@),
                raw_lines_well_formed(all),
                out@ == emitted(
                    seen,
                    compressed_all(accepted_triples(all.subrange(0, i as int))),
                    dedup,
                ),
                self.dictionary() == learned_all(
                    dictionary,
                    accepted_triples(all.subrange(0, i as int)),
                ),
                self.seen() == seen_then(
                    seen,
                    compressed_all(accepted_triples(all.subrange(0, i as int))),
                    dedup,
                ),
            decreases n - i,
        {
            let ghost done = accepted_triples(all.subrange(0, i as int));
            proof {
                assert(all.subrange(0, i + 1).drop_last() =~= all.subrange(0, i as int));
                assert(all.subrange(0, i + 1).last() == lines@[i as int]@);
                assert(raw_line_well_formed(all[i as int]));
            }
            match parse_raw_line(lines[i]) {
                RawLine::Triple(raw) => {
                    let triple = self.compress_raw_rdf_triple(raw);
                    self.emit(triple, dedup, &mut out, Ghost(seen), Ghost(compressed_all(done)));
                    proof {
                        let more = done.push(raw_terms(raw));
                        assert(more.drop_last() =~= done);
                        assert(compressed_all(more) =~= compressed_all(done).push(triple));
                    }
                },
                _ => {},
            }
            i += 1;
        }
        proof {
            assert(all.subrange(0, n as int) =~= all);
        }
        out
    }

    /// Compresses an N-Triples input without parsing its terms: the input is
    /// cut into lines, and the lines are compressed as `compress_raw_lines` does.
    pub fn compress_raw_rdf_triple_file(&mut self, input: &[u8], dedup: bool) -> (out: Vec<
        CompressedTriple,
    >)
        requires
            raw_lines_well_formed(split_lines(input@)),
        ensures
            out@ == emitted(
                old(self).seen(),
                compressed_all(accepted_triples(split_lines(input@))),
                dedup,
            ),
            final(self).dictionary() == learned_all(
                old(self).dictionary(),
                accepted_triples(split_lines(input@)),
            ),
            final(self).seen() == seen_then(
                old(self).seen(),
                compressed_all(accepted_triples(split_lines(input@))),
                dedup,
            ),
    {
        let lines = lines_of(input);
        self.compress_raw_lines(lines.as_slice(), dedup)
    }

    /// Compresses a parsed statement: interns the text of subject, predicate
    /// and object, and gives their identifiers.
    pub fn compress_parsed_rdf_triple(&mut self, parsed: &ParsedTriple) -> (triple:
        CompressedTriple)
        ensures
            triple == compressed(parsed_terms(parsed@)),
            final(self).dictionary() == learned(old(self).dictionary(), parsed_terms(parsed@)),
            final(self).seen() == old(self).seen(),
    {
        let subject = self.intern(parsed.subject.as_slice());
        let predicate = self.intern(parsed.predicate.as_slice());
        let object = self.intern(parsed.object.as_slice());
        let triple: CompressedTriple = [subject, predicate, object];
        assert(triple =~= compressed(parsed_terms(parsed@)));
        triple
    }

    /// Compresses what the parser made of an input. Only statements whose
    /// subject is a named node and whose object is a named node or a literal
    /// are kept; rejected records contribute nothing. The triples come out in
    /// the order of the statements; with `dedup`, a triple that the filter has
    /// seen is left out.
    pub fn compress_parsed_triples(&mut self, parsed: &[ParsedItem], dedup: bool) -> (out: Vec<
        CompressedTriple,
    >)
        ensures
            out@ == emitted(
                old(self).seen(),
                compressed_all(kept_triples(parsed_outcomes(parsed@))),
                dedup,
            ),
            final(self).dictionary() == learned_all(
                old(self).dictionary(),
                kept_triples(parsed_outcomes(parsed@)),
            ),
            final(self).seen() == seen_then(
                old(self).seen(),
                compressed_all(kept_triples(parsed_outcomes(parsed@))),
                dedup,
            ),
    {
        let ghost seen = self.seen();
        let ghost dictionary = self.dictionary();
        let ghost all = parsed_outcomes(parsed@);
        let mut out: Vec<CompressedTriple> = Vec::new();
        let n = parsed.len();
        let mut i: usize = 0;
        proof {
            assert(seen_after(seen, Seq::<CompressedTriple>::empty()) =~= seen);
        }
        while i < n
            invariant
                i <= n,
                n == parsed@.len(),
                all == parsed_outcomes(parsed@),
                out@ == emitted(
                    seen,
                    compressed_all(kept_triples(all.subrange(0, i as int))),
                    dedup,
                ),
                self.dictionary() == learned_all(
                    dictionary,
                    kept_triples(all.subrange(0, i as int)),
                ),
                self.seen() == seen_then(
                    seen,
                    compressed_all(kept_triples(all.subrange(0, i as int))),
                    dedup,
                ),
            decreases n - i,
        {
            let ghost done = kept_triples(all.subrange(0, i as int));
            proof {
                assert(all.subrange(0, i + 1).drop_last() =~= all.subrange(0, i as int));
                assert(all.subrange(0, i + 1).last() == parsed_outcome(parsed@[i as int]));
            }
            match &parsed[i] {
                Ok(record) => {
                    let subject_kept = match record.subject_kind {
                        TermKind::NamedNode => true,
                        _ => false,
                    };
                    let object_kept = match record.object_kind {
                        TermKind::NamedNode => true,
                        TermKind::Literal => true,
                        _ => false,
                    };
                    if subject_kept && object_kept {
                        let triple = self.compress_parsed_rdf_triple(record);
                        self.emit(
                            triple,
                            dedup,
                            &mut out,
                            Ghost(seen),
                            Ghost(compressed_all(done)),
                        );
                        proof {
                            let more = done.push(parsed_terms(record@));
                            assert(more.drop_last() =~= done);
                            assert(compressed_all(more) =~= compressed_all(done).push(triple));
                        }
                    }
                },
                Err(_) => {},
            }
            i += 1;
        }
        proof {
            assert(all.subrange(0, n as int) =~= all);
        }
        out
    }

    /// Compresses an N-Triples input through the parser: what the parser
    /// reads is compressed as `compress_parsed_triples` does, and the messages
    /// of the records that the parser rejected are handed back beside the
    /// triples, in the order of the input.
    pub fn compress_parsed_rdf_triple_file(&mut self, input: &[u8], dedup: bool) -> (r: (
        Vec<CompressedTriple>,
        Vec<Vec<u8>>,
    ))
        ensures
            r.0@ == emitted(
                old(self).seen(),
                compressed_all(kept_triples(ntriples_outcomes(input@))),
                dedup,
            ),
            message_views(r.1@) == rejections_of(ntriples_outcomes(input@)),
            final(self).dictionary() == learned_all(
                old(self).dictionary(),
                kept_triples(ntriples_outcomes(input@)),
            ),
            final(self).seen() == seen_then(
                old(self).seen(),
                compressed_all(kept_triples(ntriples_outcomes(input@))),
                dedup,
            ),
    {
        let parsed = parse_ntriples(input);
        let rejected = rejected_messages(parsed.as_slice());
        let triples = self.compress_parsed_triples(parsed.as_slice(), dedup);
        (triples, rejected)
    }

    /// Compresses one N-Triples input into the bytes of its compressed file,
    /// with the parser or with the splitter. Beside the bytes stand the
    /// messages of the records that the parser rejected; the splitter rejects
    /// nothing.
    pub fn compress_rdf_triple_file(
        &mut self,
        input: &[u8],
        dedup: bool,
        parse: bool,
        order: ByteOrder,
    ) -> (r: (Vec<u8>, Vec<Vec<u8>>))
        requires
            !parse ==> raw_lines_well_formed(split_lines(input@)),
        ensures
            r.0@ == triples_bytes(
                emitted(old(self).seen(), compressed_all(input_triples(input@, parse)), dedup),
                order,
            ),
            message_views(r.1@) == input_rejections(input@, parse),
            final(self).dictionary() == learned_all(
                old(self).dictionary(),
                input_triples(input@, parse),
            ),
            final(self).seen() == seen_then(
                old(self).seen(),
                compressed_all(input_triples(input@, parse)),
                dedup,
            ),
    {
        let (triples, rejected) = if parse {
            self.compress_parsed_rdf_triple_file(input, dedup)
        } else {
            let triples = self.compress_raw_rdf_triple_file(input, dedup);
            let rejected: Vec<Vec<u8>> = Vec::new();
            assert(message_views(rejected@) =~= Seq::<Seq<u8>>::empty());
            (triples, rejected)
        };
        (CompressedRdfTriples::new(triples).to_bytes(order), rejected)
    }
}

/// The messages of the records of an input that were rejected: those of the
/// parser, or none where the splitter is used.
pub open spec fn input_rejections(input: Seq<u8>, parse: bool) -> Seq<Seq<u8>> {
    if parse {
        rejections_of(ntriples_outcomes(input))
    } else {
        Seq::empty()
    }
}

/// The triples that an input contributes: what the parser reads and the
/// compressor keeps, or what the splitter accepts.
pub open spec fn input_triples(input: Seq<u8>, parse: bool) -> Seq<TermTriple> {
    if parse {
        kept_triples(ntriples_outcomes(input))
    } else {
        accepted_triples(split_lines(input))
    }
}

/// The identifiers of a sequence that `std` calls increasing ascend strictly.
proof fn lemma_increasing_keys(keys: Seq<TripleElementId>)
    requires
        increasing_seq(keys),
    ensures
        keys_ascending(keys),
{
    axiom_increasing_seq_meaning::<TripleElementId>(keys);
    assert forall|i: int, j: int| 0 <= i < j < keys.len() implies keys[i] < keys[j] by {
        assert(keys[i].cmp_spec(&keys[j]) is Less);
    }
}

impl RdfTripleCompressor {
    /// Takes over the terms of a frozen dictionary, so that more input can be
    /// compressed with the identifiers it already gave. The bytes of the terms
    /// are copied.
    pub fn from_decompressor(frozen: RdfTripleDecompressor) -> (r: Self)
        requires
            frozen.wf(),
        ensures
            r.dictionary() == frozen@,
            r.seen() == Set::<TripleId>::empty(),
    {
        let mut terms: BTreeMap<TripleElementId, Vec<u8>> = BTreeMap::new();
        let n = frozen.len();
        let mut i: usize = 0;
        proof {
            frozen.lemma_view();
            assert(terms@.map_values(|term: Vec<u8>| term@) =~= dictionary_of(
                frozen.header().subrange(0, 0),
                frozen.data(),
            ));
        }
        while i < n
            invariant
                i <= n,
                n == frozen.header().len(),
                frozen.wf(),
                terms@.map_values(|term: Vec<u8>| term@) == dictionary_of(
                    frozen.header().subrange(0, i as int),
                    frozen.data(),
                ),
            decreases n - i,
        {
            let (id, term) = frozen.entry(i);
            let ghost before = terms@.map_values(|term: Vec<u8>| term@);
            terms.insert(id, slice_to_vec(term));
            proof {
                let part = frozen.header().subrange(0, i as int);
                let more = frozen.header().subrange(0, i + 1);
                assert(more =~= part.push(frozen.header()[i as int]));
                assert(header_ascending(more)) by {
                    assert forall|a: int, b: int| 0 <= a < b < more.len() implies (
                    #[trigger] more[a])[0] < (#[trigger] more[b])[0] by {
                        assert(frozen.header()[a][0] < frozen.header()[b][0]);
                    }
                }
                lemma_dictionary_of_push(part, frozen.header()[i as int], frozen.data());
                assert(terms@.map_values(|term: Vec<u8>| term@) =~= before.insert(
                    id,
                    term@,
                ));
            }
            i += 1;
        }
        proof {
            assert(frozen.header().subrange(0, n as int) =~= frozen.header());
        }
        RdfTripleCompressor { terms, dedup: HashSet::new() }
    }

    /// Freezes the dictionary: a header with one record for each term, in
    /// ascending order of the identifiers, and a data segment with the bytes
    /// of the terms in that order, without gaps.
    ///
    /// There is no frozen form where the file would have more bytes than
    /// memory can address.
    pub fn freeze(&self) -> (r: Option<RdfTripleDecompressor>)
        ensures
            r is Some <==> frozen_size(self.dictionary()) <= usize::MAX,
            r matches Some(frozen) ==> frozen.wf() && frozen.compact() && frozen@
                == self.dictionary(),
    {
        let ghost dictionary = self.dictionary();
        let n = self.terms.len();
        let mut header: Vec<HeaderRecord> = Vec::new();
        let mut data: Vec<u8> = Vec::new();
        let fits = n <= (usize::MAX - 8) / 24;
        let limit: usize = if fits {
            usize::MAX - 8 - 24 * n
        } else {
            0
        };
        for entry in it: self.terms.iter()
            invariant
                it.seq() == self.terms.iter().remaining(),
                increasing_seq(it.seq().map_values(|kv: (&TripleElementId, &Vec<u8>)| *kv.0)),
                dictionary == self.dictionary(),
                n == it.seq().len(),
                fits == (8 + 24 * n <= usize::MAX),
                fits ==> limit == usize::MAX - 8 - 24 * n,
                header@.len() == it.index(),
                forall|k: int|
                    0 <= k < header@.len() ==> (#[trigger] header@[k])[0] == *it.seq()[k].0,
                header_ascending(header@),
                header_offsets_valid(header@, data@.len() as int),
                header@.len() == 0 ==> data@.len() == 0,
                header@.len() > 0 ==> header@[0][1] == 0 && header@.last()[2] == data@.len(),
                data@.len() == terms_len(
                    dictionary,
                    it.seq().map_values(|kv: (&TripleElementId, &Vec<u8>)| *kv.0).subrange(
                        0,
                        it.index(),
                    ),
                ),
                fits ==> data@.len() <= limit,
                dictionary_of(header@, data@) == Map::new(
                    |id: TripleElementId|
                        it.seq().map_values(|kv: (&TripleElementId, &Vec<u8>)| *kv.0).subrange(
                            0,
                            it.index(),
                        ).contains(id),
                    |id: TripleElementId| dictionary[id],
                ),
        {
            let ghost keys = it.seq().map_values(|kv: (&TripleElementId, &Vec<u8>)| *kv.0);
            let ghost i = it.index();
            let (id, term) = entry;
            proof {
                lemma_increasing_keys(keys);
                self.lemma_entries(keys);
                assert(keys[i] == *id);
                assert(dictionary[*id] == term@);
                assert(keys.subrange(0, i + 1).drop_last() =~= keys.subrange(0, i));
            }
            let start = data.len();
            if !fits || term.len() > limit - start {
                proof {
                    lemma_sorted_keys(dictionary, keys);
                    lemma_terms_len_prefix(dictionary, keys, i + 1);
                }
                return None;
            }
            let ghost data_before = data@;
            let ghost header_before = header@;
            push_bytes(&mut data, term.as_slice());
            let record: HeaderRecord = [*id, start as u64, data.len() as u64];
            header.push(record);
            proof {
                assert(header@ =~= header_before.push(record));
                lemma_header_ascending_push(header_before, record);
                if i > 0 {
                    assert(keys[i - 1] < keys[i]);
                }
                lemma_dictionary_of_more_data(header_before, data_before, term@);
                lemma_header_offsets_valid_push(header_before, record, data@.len() as int);
                lemma_dictionary_of_push(header_before, record, data@);
                assert(record_term(record, data@) =~= term@);
                let before = Map::new(
                    |id: TripleElementId| keys.subrange(0, i).contains(id),
                    |id: TripleElementId| dictionary[id],
                );
                let after = Map::new(
                    |id: TripleElementId| keys.subrange(0, i + 1).contains(id),
                    |id: TripleElementId| dictionary[id],
                );
                assert(after =~= before.insert(*id, term@)) by {
                    assert forall|k: TripleElementId|
                        after.contains_key(k) <==> before.insert(*id, term@).contains_key(k) by {
                        let shorter = keys.subrange(0, i);
                        let longer = keys.subrange(0, i + 1);
                        if longer.contains(k) {
                            let at = choose|at: int| 0 <= at < longer.len() && longer[at] == k;
                            if at < i {
                                assert(shorter[at] == k);
                            }
                        }
                        if shorter.contains(k) {
                            let at = choose|at: int| 0 <= at < shorter.len() && shorter[at] == k;
                            assert(longer[at] == k);
                        }
                        if k == *id {
                            assert(longer[i] == k);
                        }
                    }
                }
            }
        }
        proof {
            let keys = self.terms.iter().remaining().map_values(
                |kv: (&TripleElementId, &Vec<u8>)| *kv.0,
            );
            lemma_increasing_keys(keys);
            self.lemma_entries(keys);
            lemma_sorted_keys(dictionary, keys);
            assert(keys.subrange(0, n as int) =~= keys);
            assert(dictionary_of(header@, data@) =~= dictionary) by {
                assert forall|id: TripleElementId|
                    keys.contains(id) <==> keys.subrange(0, n as int).contains(id) by {}
            }
        }
        if !fits {
            return None;
        }
        let frozen = RdfTripleDecompressor::new(header, data);
        proof {
            frozen.lemma_view();
        }
        Some(frozen)
    }

    /// What the iteration over the map gives: its keys are the identifiers of
    /// the dictionary, and each comes with the bytes of its term.
    proof fn lemma_entries(&self, keys: Seq<TripleElementId>)
        requires
            keys == self.terms.iter().remaining().map_values(
                |kv: (&TripleElementId, &Vec<u8>)| *kv.0,
            ),
            keys_ascending(keys),
        ensures
            is_sorted_keys_of(self.dictionary(), keys),
            forall|i: int|
                0 <= i < keys.len() ==> self.dictionary()[#[trigger] keys[i]] == (
                *self.terms.iter().remaining()[i].1)@,
    {
        let entries = self.terms.iter().remaining();
        let m = self.terms@;
        assert forall|id: TripleElementId| keys.contains(id) <==> self.dictionary().contains_key(
            id,
        ) by {
            if keys.contains(id) {
                let i = choose|i: int| 0 <= i < keys.len() && keys[i] == id;
                assert(m.contains_key(*entries[i].0));
            }
            if m.contains_key(id) {
                assert(entries.contains((&id, &m[id])));
                let i = choose|i: int| 0 <= i < entries.len() && entries[i] == (&id, &m[id]);
                assert(keys[i] == id);
            }
        }
        assert forall|i: int| 0 <= i < keys.len() implies self.dictionary()[#[trigger] keys[i]]
            == (*entries[i].1)@ by {
            assert(m.contains_key(*entries[i].0));
            assert(m[*entries[i].0] == *entries[i].1);
        }
    }

    /// The bytes of the dictionary file: the frozen form, encoded. A file of
    /// these bytes holds no error and reads back as this dictionary.
    pub fn save_state(&self, order: ByteOrder) -> (r: Option<Vec<u8>>)
        ensures
            r is Some <==> frozen_size(self.dictionary()) <= usize::MAX,
            r matches Some(bytes) ==> is_dictionary_file_of(self.dictionary(), bytes@, order),
    {
        match self.freeze() {
            Some(frozen) => {
                let bytes = frozen.to_bytes(order);
                proof {
                    frozen.lemma_view();
                    crate::decompressor::lemma_dictionary_file_round_trip(
                        frozen.header(),
                        frozen.data(),
                        order,
                    );
                }
                Some(bytes)
            },
            None => None,
        }
    }
}

/// `bytes` is the file of the dictionary: it holds no error, its header and
/// data segment describe the dictionary without a gap before, between or
/// after the terms, and it holds nothing else.
pub open spec fn is_dictionary_file_of(
    dictionary: Map<TripleElementId, Seq<u8>>,
    bytes: Seq<u8>,
    order: ByteOrder,
) -> bool {
    let header = crate::decompressor::stored_header(bytes, order);
    let data = crate::decompressor::stored_data(bytes, order);
    &&& crate::decompressor::dictionary_file_error(bytes, order) is None
    &&& bytes == dictionary_file_bytes(header, data, order)
    &&& dictionary_of(header, data) == dictionary
    &&& if header.len() == 0 {
        data.len() == 0
    } else {
        header[0][1] == 0 && header.last()[2] == data.len()
    }
}

} // verus!
