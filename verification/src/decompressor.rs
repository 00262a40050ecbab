//! The frozen dictionary: a sorted header of records and one data segment,
//! which resolve identifiers back to the bytes of their terms.

use crate::byte_order::{
    lemma_u64_bytes_round_trip, push_bytes, push_u64, read_u64, u64_bytes, u64_of_bytes, ByteOrder,
};
use crate::error::FormatError;
use crate::ntriples::{ntriples_text, push_ntriples_line, raw_terms, TermTriple};
use crate::triples::{
    lemma_stored_triples_of_bytes, push_triple, stored_triple, stored_triples, triples_bytes,
    CompressedRdfTriples, CompressedTriple, RawTriple, TripleElementId,
};
use vstd::prelude::*;
use vstd::slice::{slice_subrange, slice_to_vec};

verus! {

/// One record of the header: an identifier, and where in the data segment the
/// bytes of its term start and end.
pub type HeaderRecord = [u64; 3];

/// Number of bytes of one stored header record.
pub const HEADER_RECORD_BYTES: usize = 24;

/// The identifiers of the records ascend strictly.
pub open spec fn header_ascending(header: Seq<HeaderRecord>) -> bool {
    forall|i: int, j: int|
        0 <= i < j < header.len() ==> (#[trigger] header[i])[0] < (#[trigger] header[j])[0]
}

/// Every record's range lies in a data segment of `data_len` bytes, and each
/// range starts where the one before it ends.
pub open spec fn header_offsets_valid(header: Seq<HeaderRecord>, data_len: int) -> bool {
    &&& forall|i: int|
        0 <= i < header.len() ==> (#[trigger] header[i])[1] <= header[i][2] <= data_len
    &&& forall|i: int, j: int|
        0 <= i < header.len() && j == i + 1 && j < header.len() ==> (#[trigger] header[i])[2] == (
        #[trigger] header[j])[1]
}

/// Some record of the header has the identifier `id`.
pub open spec fn header_knows(header: Seq<HeaderRecord>, id: TripleElementId) -> bool {
    exists|i: int| 0 <= i < header.len() && (#[trigger] header[i])[0] == id
}

/// The position of a record with the identifier `id`.
pub open spec fn header_position(header: Seq<HeaderRecord>, id: TripleElementId) -> int {
    choose|i: int| 0 <= i < header.len() && (#[trigger] header[i])[0] == id
}

/// The bytes that a record points at.
pub open spec fn record_term(record: HeaderRecord, data: Seq<u8>) -> Seq<u8> {
    data.subrange(record[1] as int, record[2] as int)
}

/// The dictionary that a header and a data segment describe: each identifier
/// of the header, with the bytes that its record points at.
pub open spec fn dictionary_of(header: Seq<HeaderRecord>, data: Seq<u8>) -> Map<
    TripleElementId,
    Seq<u8>,
> {
    Map::new(
        |id: TripleElementId| header_knows(header, id),
        |id: TripleElementId| record_term(header[header_position(header, id)], data),
    )
}

/// The bytes of a dictionary file: the size of the header in bytes, the header
/// records, and the data segment.
pub open spec fn dictionary_file_bytes(
    header: Seq<HeaderRecord>,
    data: Seq<u8>,
    order: ByteOrder,
) -> Seq<u8> {
    u64_bytes((24 * header.len()) as u64, order) + triples_bytes(header, order) + data
}

/// The size of the header that the first eight bytes of a dictionary file announce.
pub open spec fn stored_header_size(bytes: Seq<u8>, order: ByteOrder) -> int {
    u64_of_bytes(bytes.subrange(0, 8), order) as int
}

/// The header records that a dictionary file stores.
pub open spec fn stored_header(bytes: Seq<u8>, order: ByteOrder) -> Seq<HeaderRecord> {
    stored_triples(bytes.subrange(8, 8 + stored_header_size(bytes, order)), order)
}

/// The data segment that a dictionary file stores.
pub open spec fn stored_data(bytes: Seq<u8>, order: ByteOrder) -> Seq<u8> {
    bytes.subrange(8 + stored_header_size(bytes, order), bytes.len() as int)
}

/// What is wrong with the bytes of a dictionary file, if anything. Of several
/// faults the first of these is named: the size field is missing, the header
/// size is no multiple of the record size, the file ends before the header
/// does, the identifiers do not ascend, the offsets are wrong.
pub open spec fn dictionary_file_error(bytes: Seq<u8>, order: ByteOrder) -> Option<FormatError> {
    if bytes.len() < 8 {
        Some(FormatError::DictionaryTruncated)
    } else if stored_header_size(bytes, order) % 24 != 0 {
        Some(FormatError::DictionaryHeaderSize)
    } else if bytes.len() - 8 < stored_header_size(bytes, order) {
        Some(FormatError::DictionaryTruncated)
    } else if !header_ascending(stored_header(bytes, order)) {
        Some(FormatError::DictionaryOrder)
    } else if !header_offsets_valid(
        stored_header(bytes, order),
        stored_data(bytes, order).len() as int,
    ) {
        Some(FormatError::DictionaryOffsets)
    } else {
        None
    }
}

/// The terms that a dictionary gives for the identifiers of a triple.
pub open spec fn decompressed(
    dictionary: Map<TripleElementId, Seq<u8>>,
    triple: CompressedTriple,
) -> TermTriple {
    (dictionary[triple[0]], dictionary[triple[1]], dictionary[triple[2]])
}

/// The terms that a dictionary gives for each triple of a sequence.
pub open spec fn decompressed_all(
    dictionary: Map<TripleElementId, Seq<u8>>,
    triples: Seq<CompressedTriple>,
) -> Seq<TermTriple> {
    triples.map_values(|t: CompressedTriple| decompressed(dictionary, t))
}

/// A frozen dictionary, ready to resolve identifiers.
pub struct RdfTripleDecompressor {
    header: Vec<HeaderRecord>,
    data_segment: Vec<u8>,
}

impl View for RdfTripleDecompressor {
    type V = Map<TripleElementId, Seq<u8>>;

    /// The dictionary: each known identifier with the bytes of its term.
    closed spec fn view(&self) -> Map<TripleElementId, Seq<u8>> {
        dictionary_of(self.header@, self.data_segment@)
    }
}

impl RdfTripleDecompressor {
    /// The header records, in their order.
    pub closed spec fn header(&self) -> Seq<HeaderRecord> {
        self.header@
    }

    /// The data segment.
    pub closed spec fn data(&self) -> Seq<u8> {
        self.data_segment@
    }

    /// The invariant of a frozen dictionary: identifiers ascend strictly,
    /// ranges lie in the data segment and follow each other without gaps, and
    /// the whole fits in one file.
    pub open spec fn wf(&self) -> bool {
        &&& header_ascending(self.header())
        &&& header_offsets_valid(self.header(), self.data().len() as int)
        &&& 8 + 24 * self.header().len() + self.data().len() <= usize::MAX
    }

    /// The data segment holds the terms and nothing else: the first range
    /// starts at its start and the last ends at its end.
    pub open spec fn compact(&self) -> bool {
        if self.header().len() == 0 {
            self.data().len() == 0
        } else {
            self.header()[0][1] == 0 && self.header().last()[2] == self.data().len()
        }
    }

    /// The view is the dictionary of the header and the data segment.
    pub proof fn lemma_view(&self)
        ensures
            self@ == dictionary_of(self.header(), self.data()),
    {
    }

    /// Takes a header and a data segment that meet the invariant.
    pub fn new(header: Vec<HeaderRecord>, data_segment: Vec<u8>) -> (r: Self)
        requires
            header_ascending(header@),
            header_offsets_valid(header@, data_segment@.len() as int),
            8 + 24 * header@.len() + data_segment@.len() <= usize::MAX,
        ensures
            r.wf(),
            r.header() == header@,
            r.data() == data_segment@,
    {
        RdfTripleDecompressor { header, data_segment }
    }

    /// Number of terms.
    pub fn len(&self) -> (n: usize)
        ensures
            n == self.header().len(),
    {
        self.header.len()
    }

    /// The identifier and the term of the record at position `i`.
    pub fn entry(&self, i: usize) -> (r: (TripleElementId, &[u8]))
        requires
            self.wf(),
            i < self.header().len(),
        ensures
            r.0 == self.header()[i as int][0],
            r.1@ == record_term(self.header()[i as int], self.data()),
            self@.contains_key(r.0),
            self@[r.0] == r.1@,
    {
        let record = &self.header[i];
        proof {
            lemma_dictionary_of_record(self.header@, self.data_segment@, i as int);
        }
        let start = record[1] as usize;
        let end = record[2] as usize;
        (record[0], slice_subrange(self.data_segment.as_slice(), start, end))
    }

    /// Finds the record of an identifier by bisection of the header.
    pub fn search_header(&self, hash: TripleElementId) -> (r: Option<&HeaderRecord>)
        requires
            self.wf(),
        ensures
            match r {
                Some(record) => {
                    &&& header_knows(self.header(), hash)
                    &&& *record == self.header()[header_position(self.header(), hash)]
                },
                None => !header_knows(self.header(), hash),
            },
    {
        let mut lo: usize = 0;
        let mut hi: usize = self.header.len();
        while lo < hi
            invariant
                lo <= hi <= self.header@.len(),
                header_ascending(self.header@),
                forall|k: int| 0 <= k < lo ==> (#[trigger] self.header@[k])[0] < hash,
                forall|k: int|
                    hi <= k < self.header@.len() ==> hash < (#[trigger] self.header@[k])[0],
            decreases hi - lo,
        {
            let mid = lo + (hi - lo) / 2;
            let record = &self.header[mid];
            if record[0] < hash {
                assert forall|k: int| 0 <= k < mid + 1 implies (#[trigger] self.header@[k])[0]
                    < hash by {
                    if k < mid {
                        assert(self.header@[k][0] < self.header@[mid as int][0]);
                    }
                }
                lo = mid + 1;
            } else if hash < record[0] {
                assert forall|k: int| mid <= k < self.header@.len() implies hash < (
                #[trigger] self.header@[k])[0] by {
                    if mid < k {
                        assert(self.header@[mid as int][0] < self.header@[k][0]);
                    }
                }
                hi = mid;
            } else {
                proof {
                    assert(self.header@[mid as int][0] == hash);
                    let at = header_position(self.header@, hash);
                    if at < mid {
                        assert(self.header@[at][0] < self.header@[mid as int][0]);
                    } else if mid < at {
                        assert(self.header@[mid as int][0] < self.header@[at][0]);
                    }
                }
                return Some(record);
            }
        }
        proof {
            assert forall|k: int| 0 <= k < self.header@.len() implies (
            #[trigger] self.header@[k])[0] != hash by {
                if k < lo {
                } else {
                }
            }
        }
        None
    }

    /// The bytes of the term with the identifier `id`, if the dictionary has it.
    pub fn resolve(&self, id: TripleElementId) -> (r: Option<&[u8]>)
        requires
            self.wf(),
        ensures
            match r {
                Some(term) => self@.contains_key(id) && term@ == self@[id],
                None => !self@.contains_key(id),
            },
    {
        match self.search_header(id) {
            Some(record) => {
                let start = record[1] as usize;
                let end = record[2] as usize;
                Some(slice_subrange(self.data_segment.as_slice(), start, end))
            },
            None => None,
        }
    }

    /// Resolves the three identifiers of a triple. The slices borrow from the
    /// data segment; nothing is copied.
    pub fn decompress_rdf_triple(&self, triple: CompressedTriple) -> (r: Option<RawTriple<'_>>)
        requires
            self.wf(),
        ensures
            match r {
                Some(raw) => {
                    &&& self.knows_triple(triple)
                    &&& raw[0]@ == self@[triple[0]]
                    &&& raw[1]@ == self@[triple[1]]
                    &&& raw[2]@ == self@[triple[2]]
                },
                None => !self.knows_triple(triple),
            },
    {
        let subject = match self.resolve(triple[0]) {
            Some(term) => term,
            None => { return None; },
        };
        let predicate = match self.resolve(triple[1]) {
            Some(term) => term,
            None => { return None; },
        };
        let object = match self.resolve(triple[2]) {
            Some(term) => term,
            None => { return None; },
        };
        Some([subject, predicate, object])
    }

    /// Decodes the bytes of a dictionary file. A file whose header and data
    /// segment do not meet the invariant of a frozen dictionary is refused.
    pub fn load_state(bytes: &[u8], order: ByteOrder) -> (r: Result<Self, FormatError>)
        ensures
            match r {
                Ok(frozen) => {
                    &&& dictionary_file_error(bytes@, order) is None
                    &&& frozen.wf()
                    &&& frozen.header() == stored_header(bytes@, order)
                    &&& frozen.data() == stored_data(bytes@, order)
                },
                Err(e) => dictionary_file_error(bytes@, order) == Some(e),
            },
    {
        let size = bytes.len();
        if size < 8 {
            return Err(FormatError::DictionaryTruncated);
        }
        let header_size = read_u64(bytes, 0, order);
        if header_size % 24 != 0 {
            return Err(FormatError::DictionaryHeaderSize);
        }
        if ((size - 8) as u64) < header_size {
            return Err(FormatError::DictionaryTruncated);
        }
        let header_len = header_size as usize;
        let n = header_len / HEADER_RECORD_BYTES;
        let data_len = size - 8 - header_len;
        let ghost stored = bytes@.subrange(8, 8 + header_len);
        let mut header: Vec<HeaderRecord> = Vec::with_capacity(n);
        let mut ascending = true;
        let mut offsets_valid = true;
        let mut i: usize = 0;
        while i < n
            invariant
                i <= n,
                size == bytes@.len(),
                header_len % 24 == 0,
                n == header_len / 24,
                8 + header_len + data_len == size,
                stored == bytes@.subrange(8, 8 + header_len),
                header@ == Seq::new(i as nat, |k: int| stored_triple(stored, k, order)),
                ascending == header_ascending(header@),
                offsets_valid == header_offsets_valid(header@, data_len as int),
            decreases n - i,
        {
            let at = 8 + i * HEADER_RECORD_BYTES;
            let id = read_u64(bytes, at, order);
            let start = read_u64(bytes, at + 8, order);
            let end = read_u64(bytes, at + 16, order);
            let record: HeaderRecord = [id, start, end];
            proof {
                assert(bytes@.subrange(at as int, at + 8) =~= stored.subrange(24 * i, 24 * i + 8));
                assert(bytes@.subrange(at + 8, at + 16) =~= stored.subrange(
                    24 * i + 8,
                    24 * i + 16,
                ));
                assert(bytes@.subrange(at + 16, at + 24) =~= stored.subrange(
                    24 * i + 16,
                    24 * i + 24,
                ));
                assert(record =~= stored_triple(stored, i as int, order));
            }
            let ghost before = header@;
            let follows = i == 0 || header[i - 1][0] < id;
            let joins = i == 0 || header[i - 1][2] == start;
            let inside = start <= end && end <= data_len as u64;
            header.push(record);
            proof {
                assert(header@ =~= Seq::new(
                    (i + 1) as nat,
                    |k: int| stored_triple(stored, k, order),
                ));
                assert(before =~= header@.drop_last());
                lemma_header_ascending_push(before, record);
                lemma_header_offsets_valid_push(before, record, data_len as int);
            }
            ascending = ascending && follows;
            offsets_valid = offsets_valid && joins && inside;
            i += 1;
        }
        proof {
            assert(header@ =~= stored_header(bytes@, order));
        }
        if !ascending {
            return Err(FormatError::DictionaryOrder);
        }
        if !offsets_valid {
            return Err(FormatError::DictionaryOffsets);
        }
        let data_segment = slice_to_vec(slice_subrange(bytes, 8 + header_len, size));
        Ok(RdfTripleDecompressor { header, data_segment })
    }

    /// Encodes the dictionary as the bytes of a dictionary file.
    pub fn to_bytes(&self, order: ByteOrder) -> (bytes: Vec<u8>)
        requires
            self.wf(),
        ensures
            bytes@ == dictionary_file_bytes(self.header(), self.data(), order),
    {
        let n = self.header.len();
        let mut bytes: Vec<u8> = Vec::new();
        push_u64(&mut bytes, (n * HEADER_RECORD_BYTES) as u64, order);
        let ghost size_field = bytes@;
        let mut i: usize = 0;
        while i < n
            invariant
                i <= n,
                n == self.header@.len(),
                bytes@ == size_field + triples_bytes(self.header@.subrange(0, i as int), order),
            decreases n - i,
        {
            push_triple(&mut bytes, &self.header[i], order);
            i += 1;
            assert(self.header@.subrange(0, i as int).drop_last() =~= self.header@.subrange(
                0,
                i - 1,
            ));
            assert(bytes@ =~= size_field + triples_bytes(
                self.header@.subrange(0, i as int),
                order,
            ));
        }
        assert(self.header@.subrange(0, n as int) =~= self.header@);
        push_bytes(&mut bytes, self.data_segment.as_slice());
        bytes
    }

    /// Tells whether the dictionary has every identifier of every triple.
    pub fn knows_all_triples(&self, triples: &[CompressedTriple]) -> (r: bool)
        requires
            self.wf(),
        ensures
            r == self.knows_all(triples@),
    {
        let n = triples.len();
        let mut i: usize = 0;
        while i < n
            invariant
                i <= n,
                n == triples@.len(),
                self.wf(),
                self.knows_all(triples@.subrange(0, i as int)),
            decreases n - i,
        {
            match self.decompress_rdf_triple(triples[i]) {
                Some(_) => {},
                None => {
                    return false;
                },
            }
            proof {
                let before = triples@.subrange(0, i as int);
                let after = triples@.subrange(0, i + 1);
                assert forall|k: int| 0 <= k < after.len() implies self.knows_triple(
                    #[trigger] after[k],
                ) by {
                    if k < i {
                        assert(after[k] == before[k]);
                    }
                }
            }
            i += 1;
        }
        assert(triples@.subrange(0, n as int) =~= triples@);
        true
    }

    /// Resolves every triple of a batch. The slices borrow from the data segment.
    pub fn decompress_all(&self, triples: &[CompressedTriple]) -> (raws: Vec<RawTriple<'_>>)
        requires
            self.wf(),
            self.knows_all(triples@),
        ensures
            crate::ntriples::raw_terms_of(raws@) == decompressed_all(self@, triples@),
    {
        let n = triples.len();
        let mut raws: Vec<RawTriple<'_>> = Vec::with_capacity(n);
        let mut i: usize = 0;
        while i < n
            invariant
                i <= n,
                n == triples@.len(),
                self.wf(),
                self.knows_all(triples@),
                raws@.len() == i,
                crate::ntriples::raw_terms_of(raws@) == decompressed_all(
                    self@,
                    triples@.subrange(0, i as int),
                ),
            decreases n - i,
        {
            assert(self.knows_triple(triples@[i as int]));
            let ghost before = raws@;
            match self.decompress_rdf_triple(triples[i]) {
                Some(raw) => {
                    raws.push(raw);
                    proof {
                        assert(raws@ =~= before.push(raw));
                        let terms = crate::ntriples::raw_terms_of(raws@);
                        let earlier = decompressed_all(self@, triples@.subrange(0, i as int));
                        let wanted = decompressed_all(self@, triples@.subrange(0, i + 1));
                        assert(crate::ntriples::raw_terms_of(before) == earlier);
                        assert forall|k: int| 0 <= k < terms.len() implies terms[k]
                            == wanted[k] by {
                            if k < i {
                                assert(terms[k] == crate::ntriples::raw_terms_of(before)[k]);
                                assert(wanted[k] == earlier[k]);
                            } else {
                                assert(terms[k] == raw_terms(raw));
                                assert(wanted[k] == decompressed(self@, triples@[i as int]));
                            }
                        }
                        assert(terms =~= wanted);
                    }
                },
                None => {},
            }
            i += 1;
        }
        assert(triples@.subrange(0, n as int) =~= triples@);
        raws
    }

    /// Writes the triples of a compressed file as the text of an N-Triples
    /// file: one line for each triple, in the order of the file.
    pub fn decompress_rdf_triple_file(&self, triples: &CompressedRdfTriples) -> (text: Vec<u8>)
        requires
            self.wf(),
            self.knows_all(triples@),
        ensures
            text@ == ntriples_text(decompressed_all(self@, triples@)),
    {
        let mut text: Vec<u8> = Vec::new();
        let n = triples.len();
        let mut i: usize = 0;
        while i < n
            invariant
                i <= n,
                n == triples@.len(),
                self.wf(),
                self.knows_all(triples@),
                text@ == ntriples_text(decompressed_all(self@, triples@.subrange(0, i as int))),
            decreases n - i,
        {
            let triple = *triples.get(i);
            assert(self.knows_triple(triples@[i as int]));
            match self.decompress_rdf_triple(triple) {
                Some(raw) => {
                    push_ntriples_line(&mut text, &raw);
                    proof {
                        let before = decompressed_all(self@, triples@.subrange(0, i as int));
                        let after = decompressed_all(self@, triples@.subrange(0, i + 1));
                        assert(after.drop_last() =~= before);
                        assert(after.last() == raw_terms(raw));
                    }
                },
                None => {},
            }
            i += 1;
        }
        assert(triples@.subrange(0, n as int) =~= triples@);
        text
    }

    /// The dictionary has all three identifiers of the triple.
    pub open spec fn knows_triple(&self, triple: CompressedTriple) -> bool {
        &&& self@.contains_key(triple[0])
        &&& self@.contains_key(triple[1])
        &&& self@.contains_key(triple[2])
    }

    /// The dictionary has every identifier of every triple.
    pub open spec fn knows_all(&self, triples: Seq<CompressedTriple>) -> bool {
        forall|i: int| 0 <= i < triples.len() ==> self.knows_triple(#[trigger] triples[i])
    }
}

/// A header with one more record ascends exactly if it did before and the
/// new identifier is greater than the last.
pub proof fn lemma_header_ascending_push(header: Seq<HeaderRecord>, record: HeaderRecord)
    ensures
        header_ascending(header.push(record)) == (header_ascending(header) && (header.len() == 0
            || header.last()[0] < record[0])),
{
    let longer = header.push(record);
    if header_ascending(longer) {
        assert forall|i: int, j: int| 0 <= i < j < header.len() implies (
        #[trigger] header[i])[0] < (#[trigger] header[j])[0] by {
            assert(longer[i][0] < longer[j][0]);
        }
        if header.len() > 0 {
            assert(longer[header.len() - 1][0] < longer[header.len() as int][0]);
        }
    }
    if header_ascending(header) && (header.len() == 0 || header.last()[0] < record[0]) {
        assert forall|i: int, j: int| 0 <= i < j < longer.len() implies (
        #[trigger] longer[i])[0] < (#[trigger] longer[j])[0] by {
            if j < header.len() {
                assert(header[i][0] < header[j][0]);
            } else if i < header.len() - 1 {
                assert(header[i][0] < header[header.len() - 1][0]);
            }
        }
    }
}

/// A header with one more record has valid offsets exactly if it had before,
/// the new range starts where the last one ends, and the new range lies in the
/// data segment.
pub proof fn lemma_header_offsets_valid_push(
    header: Seq<HeaderRecord>,
    record: HeaderRecord,
    data_len: int,
)
    ensures
        header_offsets_valid(header.push(record), data_len) == (header_offsets_valid(
            header,
            data_len,
        ) && (header.len() == 0 || header.last()[2] == record[1]) && record[1] <= record[2]
            <= data_len),
{
    let longer = header.push(record);
    let n = header.len() as int;
    if header_offsets_valid(longer, data_len) {
        assert forall|i: int| 0 <= i < header.len() implies (#[trigger] header[i])[1]
            <= header[i][2] <= data_len by {
            assert(longer[i][1] <= longer[i][2]);
        }
        assert forall|i: int, j: int|
            0 <= i < header.len() && j == i + 1 && j < header.len() implies (
        #[trigger] header[i])[2] == (#[trigger] header[j])[1] by {
            assert(longer[i][2] == longer[j][1]);
        }
        assert(longer[n][1] <= longer[n][2] <= data_len);
        if n > 0 {
            assert(longer[n - 1][2] == longer[n][1]);
        }
    }
    if header_offsets_valid(header, data_len) && (header.len() == 0 || header.last()[2]
        == record[1]) && record[1] <= record[2] <= data_len {
        assert forall|i: int| 0 <= i < longer.len() implies (#[trigger] longer[i])[1]
            <= longer[i][2] <= data_len by {
            if i < n {
                assert(header[i][1] <= header[i][2]);
            }
        }
        assert forall|i: int, j: int|
            0 <= i < longer.len() && j == i + 1 && j < longer.len() implies (
        #[trigger] longer[i])[2] == (#[trigger] longer[j])[1] by {
            if j < n {
                assert(header[i][2] == header[j][1]);
            }
        }
    }
}

/// A dictionary file that was written from a header and a data segment holds
/// no error, and reading it gives the header and the data segment back.
pub proof fn lemma_dictionary_file_round_trip(
    header: Seq<HeaderRecord>,
    data: Seq<u8>,
    order: ByteOrder,
)
    requires
        header_ascending(header),
        header_offsets_valid(header, data.len() as int),
        8 + 24 * header.len() + data.len() <= usize::MAX,
    ensures
        dictionary_file_error(dictionary_file_bytes(header, data, order), order) is None,
        stored_header(dictionary_file_bytes(header, data, order), order) == header,
        stored_data(dictionary_file_bytes(header, data, order), order) == data,
{
    let file = dictionary_file_bytes(header, data, order);
    let size = (24 * header.len()) as u64;
    lemma_u64_bytes_round_trip(size, order);
    lemma_stored_triples_of_bytes(header, order);
    assert(file.subrange(0, 8) =~= u64_bytes(size, order));
    assert(stored_header_size(file, order) == 24 * header.len());
    let n = 24 * header.len() as int;
    assert(file.subrange(8, 8 + n) =~= triples_bytes(header, order));
    assert(file.subrange(8 + n, file.len() as int) =~= data);
}

/// The identifiers of a sequence ascend strictly.
pub open spec fn keys_ascending(keys: Seq<TripleElementId>) -> bool {
    forall|i: int, j: int| 0 <= i < j < keys.len() ==> keys[i] < keys[j]
}

/// `keys` holds the identifiers of the dictionary, in ascending order.
pub open spec fn is_sorted_keys_of(
    dictionary: Map<TripleElementId, Seq<u8>>,
    keys: Seq<TripleElementId>,
) -> bool {
    &&& keys_ascending(keys)
    &&& forall|id: TripleElementId| keys.contains(id) <==> dictionary.contains_key(id)
}

/// The identifiers of a dictionary in ascending order.
pub open spec fn sorted_keys(dictionary: Map<TripleElementId, Seq<u8>>) -> Seq<TripleElementId> {
    choose|keys: Seq<TripleElementId>| is_sorted_keys_of(dictionary, keys)
}

/// Number of bytes of the terms that the dictionary has for the identifiers of `keys`.
pub open spec fn terms_len(
    dictionary: Map<TripleElementId, Seq<u8>>,
    keys: Seq<TripleElementId>,
) -> nat
    decreases keys.len(),
{
    if keys.len() == 0 {
        0
    } else {
        terms_len(dictionary, keys.drop_last()) + dictionary[keys.last()].len()
    }
}

/// Number of bytes of the file that holds the dictionary: the size field, one
/// header record for each term, and the bytes of the terms.
pub open spec fn frozen_size(dictionary: Map<TripleElementId, Seq<u8>>) -> nat {
    8 + 24 * sorted_keys(dictionary).len() + terms_len(dictionary, sorted_keys(dictionary))
}

/// Two ascending sequences with the same elements are the same sequence.
pub proof fn lemma_ascending_unique(a: Seq<TripleElementId>, b: Seq<TripleElementId>)
    requires
        keys_ascending(a),
        keys_ascending(b),
        forall|id: TripleElementId| a.contains(id) <==> b.contains(id),
    ensures
        a == b,
    decreases a.len(),
{
    if a.len() == 0 {
        if b.len() > 0 {
            assert(b.contains(b[0]));
            assert(a.contains(b[0]));
        }
        assert(a =~= b);
    } else {
        assert(a.contains(a.last()));
        assert(b.contains(a.last()));
        let j = choose|j: int| 0 <= j < b.len() && b[j] == a.last();
        assert(b.contains(b.last()));
        assert(a.contains(b.last()));
        let i = choose|i: int| 0 <= i < a.len() && a[i] == b.last();
        if i < a.len() - 1 {
            assert(a[i] < a[a.len() - 1]);
        }
        if j < b.len() - 1 {
            assert(b[j] < b[b.len() - 1]);
        }
        assert(a.last() == b.last());
        let a0 = a.drop_last();
        let b0 = b.drop_last();
        assert forall|id: TripleElementId| a0.contains(id) <==> b0.contains(id) by {
            if a0.contains(id) {
                let k = choose|k: int| 0 <= k < a0.len() && a0[k] == id;
                assert(a[k] < a[a.len() - 1]);
                assert(a.contains(id));
                assert(b.contains(id));
                let l = choose|l: int| 0 <= l < b.len() && b[l] == id;
                assert(b0[l] == id);
            }
            if b0.contains(id) {
                let k = choose|k: int| 0 <= k < b0.len() && b0[k] == id;
                assert(b[k] < b[b.len() - 1]);
                assert(b.contains(id));
                assert(a.contains(id));
                let l = choose|l: int| 0 <= l < a.len() && a[l] == id;
                assert(a0[l] == id);
            }
        }
        lemma_ascending_unique(a0, b0);
        assert(a =~= a0.push(a.last()));
        assert(b =~= b0.push(b.last()));
    }
}

/// An ascending sequence of the identifiers of a dictionary is its sorted keys.
pub proof fn lemma_sorted_keys(
    dictionary: Map<TripleElementId, Seq<u8>>,
    keys: Seq<TripleElementId>,
)
    requires
        is_sorted_keys_of(dictionary, keys),
    ensures
        sorted_keys(dictionary) == keys,
{
    lemma_ascending_unique(sorted_keys(dictionary), keys);
}

/// The terms of a part of the keys take no more bytes than those of all keys.
pub proof fn lemma_terms_len_prefix(
    dictionary: Map<TripleElementId, Seq<u8>>,
    keys: Seq<TripleElementId>,
    i: int,
)
    requires
        0 <= i <= keys.len(),
    ensures
        terms_len(dictionary, keys.subrange(0, i)) <= terms_len(dictionary, keys),
    decreases keys.len(),
{
    if i == keys.len() {
        assert(keys.subrange(0, i) =~= keys);
    } else {
        lemma_terms_len_prefix(dictionary, keys.drop_last(), i);
        assert(keys.drop_last().subrange(0, i) =~= keys.subrange(0, i));
    }
}

/// In an ascending header each identifier stands once, so the dictionary has
/// for it the bytes that its record points at.
pub proof fn lemma_dictionary_of_record(header: Seq<HeaderRecord>, data: Seq<u8>, i: int)
    requires
        header_ascending(header),
        0 <= i < header.len(),
    ensures
        dictionary_of(header, data).contains_key(header[i][0]),
        dictionary_of(header, data)[header[i][0]] == record_term(header[i], data),
        header_position(header, header[i][0]) == i,
{
    let at = header_position(header, header[i][0]);
    if at < i {
        assert(header[at][0] < header[i][0]);
    } else if i < at {
        assert(header[i][0] < header[at][0]);
    }
}

/// A record added at the end of a header adds its term to the dictionary.
pub proof fn lemma_dictionary_of_push(
    header: Seq<HeaderRecord>,
    record: HeaderRecord,
    data: Seq<u8>,
)
    requires
        header_ascending(header.push(record)),
    ensures
        dictionary_of(header.push(record), data) == dictionary_of(header, data).insert(
            record[0],
            record_term(record, data),
        ),
{
    let longer = header.push(record);
    let n = header.len() as int;
    lemma_header_ascending_push(header, record);
    let a = dictionary_of(longer, data);
    let b = dictionary_of(header, data).insert(record[0], record_term(record, data));
    assert forall|id: TripleElementId| a.contains_key(id) <==> b.contains_key(id) by {
        if header_knows(longer, id) {
            let k = choose|k: int| 0 <= k < longer.len() && (#[trigger] longer[k])[0] == id;
            if k < n {
                assert(header[k][0] == id);
            }
        }
        if header_knows(header, id) {
            let k = choose|k: int| 0 <= k < header.len() && (#[trigger] header[k])[0] == id;
            assert(longer[k][0] == id);
        }
        if id == record[0] {
            assert(longer[n][0] == id);
        }
    }
    assert forall|id: TripleElementId| a.contains_key(id) implies a[id] == b[id] by {
        let k = choose|k: int| 0 <= k < longer.len() && (#[trigger] longer[k])[0] == id;
        lemma_dictionary_of_record(longer, data, k);
        if k < n {
            assert(header[k] == longer[k]);
            lemma_dictionary_of_record(header, data, k);
            assert(longer[k][0] < longer[n][0]);
        }
    }
    assert(a =~= b);
}

/// Bytes added after the data segment change nothing in the dictionary.
pub proof fn lemma_dictionary_of_more_data(header: Seq<HeaderRecord>, data: Seq<u8>, more: Seq<u8>)
    requires
        header_offsets_valid(header, data.len() as int),
    ensures
        dictionary_of(header, data + more) == dictionary_of(header, data),
        header_offsets_valid(header, (data + more).len() as int),
{
    let a = dictionary_of(header, data + more);
    let b = dictionary_of(header, data);
    assert forall|id: TripleElementId| a.contains_key(id) implies a[id] == b[id] by {
        let k = header_position(header, id);
        assert(header[k][1] <= header[k][2] <= data.len());
        assert(record_term(header[k], data + more) =~= record_term(header[k], data));
    }
    assert(a =~= b);
}

} // verus!
