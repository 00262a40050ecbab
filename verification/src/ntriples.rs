//! N-Triples as text: how a triple is written on a line, and how the lines of
//! an input are split into terms without a full parse.

use crate::byte_order::push_bytes;
use crate::triples::RawTriple;
use rio_api::model::{Subject, Term};
use rio_api::parser::TriplesParser;
use rio_turtle::{NTriplesParser, TurtleError};
use vstd::prelude::*;
use vstd::slice::slice_subrange;

verus! {

/// The byte between two terms.
pub const SPACE: u8 = 0x20;

/// The byte that closes a statement.
pub const DOT: u8 = 0x2e;

/// The byte that ends a line.
pub const NEWLINE: u8 = 0x0a;

/// The byte that opens a comment line.
pub const HASH: u8 = 0x23;

/// The byte that opens a blank node.
pub const UNDERSCORE: u8 = 0x5f;

/// Subject, predicate and object as the bytes of their terms.
pub type TermTriple = (Seq<u8>, Seq<u8>, Seq<u8>);

/// The terms that the three slices of a raw triple hold.
pub open spec fn raw_terms(raw: RawTriple) -> TermTriple {
    (raw[0]@, raw[1]@, raw[2]@)
}

/// The terms of each raw triple of a sequence.
pub open spec fn raw_terms_of(raws: Seq<RawTriple>) -> Seq<TermTriple> {
    raws.map_values(|raw: RawTriple| raw_terms(raw))
}

/// A triple as a statement: the terms with one space between them, then a
/// space and a dot. The terms are written as they are.
pub open spec fn statement(t: TermTriple) -> Seq<u8> {
    t.0 + seq![SPACE] + t.1 + seq![SPACE] + t.2 + seq![SPACE, DOT]
}

/// A triple as a line of an N-Triples file.
pub open spec fn ntriples_line(t: TermTriple) -> Seq<u8> {
    statement(t) + seq![NEWLINE]
}

/// The text of an N-Triples file with one line for each triple.
pub open spec fn ntriples_text(triples: Seq<TermTriple>) -> Seq<u8>
    decreases triples.len(),
{
    if triples.len() == 0 {
        Seq::empty()
    } else {
        ntriples_text(triples.drop_last()) + ntriples_line(triples.last())
    }
}

/// Appends a triple as a statement to `out`.
pub fn push_statement(out: &mut Vec<u8>, raw: &RawTriple)
    ensures
        final(out)@ == old(out)@ + statement(raw_terms(*raw)),
{
    push_bytes(out, raw[0]);
    out.push(SPACE);
    push_bytes(out, raw[1]);
    out.push(SPACE);
    push_bytes(out, raw[2]);
    out.push(SPACE);
    out.push(DOT);
    assert(out@ =~= old(out)@ + statement(raw_terms(*raw)));
}

/// Appends a triple as a line of an N-Triples file to `out`.
pub fn push_ntriples_line(out: &mut Vec<u8>, raw: &RawTriple)
    ensures
        final(out)@ == old(out)@ + ntriples_line(raw_terms(*raw)),
{
    push_statement(out, raw);
    out.push(NEWLINE);
    assert(out@ =~= old(out)@ + ntriples_line(raw_terms(*raw)));
}

/// `k` is where `byte` first occurs in `s`, or the length of `s` where it does not occur.
pub open spec fn is_first_index_of(s: Seq<u8>, byte: u8, k: int) -> bool {
    &&& 0 <= k <= s.len()
    &&& forall|i: int| 0 <= i < k ==> s[i] != byte
    &&& k < s.len() ==> s[k] == byte
}

/// Where `byte` first occurs in `s`, or the length of `s` where it does not occur.
pub open spec fn first_index_of(s: Seq<u8>, byte: u8) -> int {
    choose|k: int| is_first_index_of(s, byte, k)
}

/// There is one first occurrence, and `first_index_of` names it.
pub proof fn lemma_first_index_of(s: Seq<u8>, byte: u8, k: int)
    requires
        is_first_index_of(s, byte, k),
    ensures
        first_index_of(s, byte) == k,
{
    let c = first_index_of(s, byte);
    assert(is_first_index_of(s, byte, c));
    if c < k {
        assert(s[c] != byte);
    } else if k < c {
        assert(s[k] != byte);
    }
}

/// Finds where `byte` first occurs in `s` at or after `from`, or the length of `s`.
pub fn find_byte(s: &[u8], from: usize, byte: u8) -> (at: usize)
    requires
        from <= s@.len(),
    ensures
        from <= at <= s@.len(),
        at - from == first_index_of(s@.subrange(from as int, s@.len() as int), byte),
{
    let n = s.len();
    let mut at = from;
    while at < n && s[at] != byte
        invariant
            from <= at <= n,
            n == s@.len(),
            forall|i: int| from <= i < at ==> s@[i] != byte,
        decreases n - at,
    {
        at += 1;
    }
    proof {
        let tail = s@.subrange(from as int, n as int);
        assert forall|i: int| 0 <= i < at - from implies tail[i] != byte by {
            assert(tail[i] == s@[from + i]);
        }
        lemma_first_index_of(tail, byte, at - from);
    }
    at
}

/// The lines of an input: the runs of bytes between line ends. A line end
/// after the last line adds no empty line.
pub open spec fn split_lines(input: Seq<u8>) -> Seq<Seq<u8>>
    decreases input.len(),
{
    let k = first_index_of(input, NEWLINE);
    if input.len() == 0 {
        Seq::empty()
    } else if 0 <= k < input.len() {
        seq![input.subrange(0, k)] + split_lines(input.subrange(k + 1, input.len() as int))
    } else {
        seq![input]
    }
}

/// The bytes that each slice of a sequence holds.
pub open spec fn slice_views(lines: Seq<&[u8]>) -> Seq<Seq<u8>> {
    lines.map_values(|line: &[u8]| line@)
}

/// Splits an input into its lines. The lines borrow from the input.
pub fn lines_of<'a>(input: &'a [u8]) -> (lines: Vec<&'a [u8]>)
    ensures
        slice_views(lines@) == split_lines(input@),
{
    let n = input.len();
    let mut lines: Vec<&'a [u8]> = Vec::new();
    let mut start: usize = 0;
    proof {
        assert(input@.subrange(0, n as int) =~= input@);
        assert(slice_views(lines@) =~= Seq::empty());
        assert(split_lines(input@) =~= slice_views(lines@) + split_lines(input@));
    }
    while start < n
        invariant
            start <= n,
            n == input@.len(),
            split_lines(input@) == slice_views(lines@) + split_lines(
                input@.subrange(start as int, n as int),
            ),
        decreases n - start,
    {
        let end = find_byte(input, start, NEWLINE);
        let line = slice_subrange(input, start, end);
        let ghost tail = input@.subrange(start as int, n as int);
        let ghost before = slice_views(lines@);
        lines.push(line);
        let next = if end < n {
            end + 1
        } else {
            n
        };
        proof {
            assert(slice_views(lines@) =~= before.push(line@));
            assert(line@ =~= tail.subrange(0, end - start));
            if end < n {
                assert(tail.subrange(end - start + 1, tail.len() as int) =~= input@.subrange(
                    next as int,
                    n as int,
                ));
            } else {
                assert(line@ =~= tail);
                assert(split_lines(input@.subrange(next as int, n as int)) =~= Seq::empty());
            }
            assert(split_lines(input@) =~= slice_views(lines@) + split_lines(
                input@.subrange(next as int, n as int),
            ));
        }
        start = next;
    }
    proof {
        assert(split_lines(input@.subrange(n as int, n as int)) =~= Seq::empty());
        assert(split_lines(input@) =~= slice_views(lines@));
    }
    lines
}

/// A line that holds no statement: an empty line, or a comment.
pub open spec fn raw_line_skipped(line: Seq<u8>) -> bool {
    line.len() == 0 || line[0] == HASH
}

/// The field ends with a space and a dot.
pub open spec fn ends_statement(field: Seq<u8>) -> bool {
    field.len() >= 2 && field[field.len() - 2] == SPACE && field[field.len() - 1] == DOT
}

/// The three terms of a line: the bytes before the first space, the bytes
/// between the first and the second space, and the rest without the space and
/// the dot that close it. A line with fewer than two spaces, or whose rest
/// does not end with a space and a dot, has none.
pub open spec fn raw_line_fields(line: Seq<u8>) -> Option<TermTriple> {
    let first = first_index_of(line, SPACE);
    let rest = line.subrange(first + 1, line.len() as int);
    let second = first_index_of(rest, SPACE);
    let last = rest.subrange(second + 1, rest.len() as int);
    if !(0 <= first < line.len()) {
        None
    } else if !(0 <= second < rest.len()) {
        None
    } else if !ends_statement(last) {
        None
    } else {
        Some((line.subrange(0, first), rest.subrange(0, second), last.subrange(0, last.len() - 2)))
    }
}

/// The line is one that the splitter takes: it is skipped, or it has three terms.
pub open spec fn raw_line_well_formed(line: Seq<u8>) -> bool {
    raw_line_skipped(line) || raw_line_fields(line) is Some
}

/// The subject or the object is a blank node: it starts with an underscore.
pub open spec fn names_blank_node(t: TermTriple) -> bool {
    (t.0.len() > 0 && t.0[0] == UNDERSCORE) || (t.2.len() > 0 && t.2[0] == UNDERSCORE)
}

/// The triple that a line contributes, if any. Skipped lines and lines with
/// a blank node contribute none.
pub open spec fn raw_line_triple(line: Seq<u8>) -> Option<TermTriple> {
    if raw_line_skipped(line) {
        None
    } else {
        match raw_line_fields(line) {
            Some(t) => if names_blank_node(t) {
                None
            } else {
                Some(t)
            },
            None => None,
        }
    }
}

/// The triples that the lines contribute, in the order of the lines.
pub open spec fn accepted_triples(lines: Seq<Seq<u8>>) -> Seq<TermTriple>
    decreases lines.len(),
{
    if lines.len() == 0 {
        Seq::empty()
    } else {
        match raw_line_triple(lines.last()) {
            Some(t) => accepted_triples(lines.drop_last()).push(t),
            None => accepted_triples(lines.drop_last()),
        }
    }
}

/// Every line is one that the splitter takes.
pub open spec fn raw_lines_well_formed(lines: Seq<Seq<u8>>) -> bool {
    forall|i: int| 0 <= i < lines.len() ==> raw_line_well_formed(#[trigger] lines[i])
}

/// What the splitter makes of one line.
pub enum RawLine<'a> {
    /// An empty line, a comment, or a statement about a blank node.
    Skipped,
    /// A line that is none of these and has no three terms.
    Malformed,
    /// A statement, with its three terms.
    Triple(RawTriple<'a>),
}

/// Splits a run of bytes at its first space.
fn split_at_space<'a>(s: &'a [u8]) -> (r: Option<(&'a [u8], &'a [u8])>)
    ensures
        match r {
            Some((head, tail)) => {
                &&& 0 <= first_index_of(s@, SPACE) < s@.len()
                &&& head@ == s@.subrange(0, first_index_of(s@, SPACE))
                &&& tail@ == s@.subrange(first_index_of(s@, SPACE) + 1, s@.len() as int)
            },
            None => !(0 <= first_index_of(s@, SPACE) < s@.len()),
        },
{
    let n = s.len();
    let at = find_byte(s, 0, SPACE);
    assert(s@.subrange(0, n as int) =~= s@);
    if at >= n {
        None
    } else {
        Some((slice_subrange(s, 0, at), slice_subrange(s, at + 1, n)))
    }
}

/// Takes the space and the dot off the end of the last field.
fn strip_statement_end<'a>(field: &'a [u8]) -> (r: Option<&'a [u8]>)
    ensures
        match r {
            Some(term) => ends_statement(field@) && term@ == field@.subrange(
                0,
                field@.len() - 2,
            ),
            None => !ends_statement(field@),
        },
{
    let n = field.len();
    if n < 2 || field[n - 2] != SPACE || field[n - 1] != DOT {
        None
    } else {
        Some(slice_subrange(field, 0, n - 2))
    }
}

/// Splits a line into its three fields.
fn split_raw_line<'a>(line: &'a [u8]) -> (r: Option<RawTriple<'a>>)
    ensures
        match r {
            Some(raw) => raw_line_fields(line@) == Some(raw_terms(raw)),
            None => raw_line_fields(line@) is None,
        },
{
    let (subject, rest) = match split_at_space(line) {
        Some(pair) => pair,
        None => {
            return None;
        },
    };
    let (predicate, last) = match split_at_space(rest) {
        Some(pair) => pair,
        None => {
            return None;
        },
    };
    let object = match strip_statement_end(last) {
        Some(term) => term,
        None => {
            return None;
        },
    };
    let raw: RawTriple<'a> = [subject, predicate, object];
    Some(raw)
}

/// Splits one line into its three terms, without looking into the terms.
pub fn parse_raw_line<'a>(line: &'a [u8]) -> (r: RawLine<'a>)
    ensures
        match r {
            RawLine::Skipped => raw_line_well_formed(line@) && raw_line_triple(line@) is None,
            RawLine::Malformed => !raw_line_well_formed(line@),
            RawLine::Triple(raw) => raw_line_well_formed(line@) && raw_line_triple(line@) == Some(
                raw_terms(raw),
            ),
        },
{
    if line.len() == 0 || line[0] == HASH {
        return RawLine::Skipped;
    }
    match split_raw_line(line) {
        None => RawLine::Malformed,
        Some(raw) => {
            let subject = raw[0];
            let object = raw[2];
            if (subject.len() > 0 && subject[0] == UNDERSCORE) || (object.len() > 0 && object[0]
                == UNDERSCORE) {
                RawLine::Skipped
            } else {
                RawLine::Triple(raw)
            }
        },
    }
}

/// Looks for a line that the splitter does not take, and gives the position
/// of the first one.
pub fn first_malformed_line(lines: &[&[u8]]) -> (r: Option<usize>)
    ensures
        match r {
            Some(i) => {
                &&& i < lines@.len()
                &&& !raw_line_well_formed(lines@[i as int]@)
                &&& raw_lines_well_formed(slice_views(lines@.subrange(0, i as int)))
            },
            None => raw_lines_well_formed(slice_views(lines@)),
        },
{
    let n = lines.len();
    let mut i: usize = 0;
    while i < n
        invariant
            i <= n,
            n == lines@.len(),
            forall|k: int| 0 <= k < i ==> raw_line_well_formed((#[trigger] lines@[k])@),
        decreases n - i,
    {
        match parse_raw_line(lines[i]) {
            RawLine::Malformed => {
                return Some(i);
            },
            _ => {},
        }
        i += 1;
    }
    None
}

/// The terms of an accepted line, written as a statement, are the line.
pub proof fn lemma_statement_of_raw_line(line: Seq<u8>)
    requires
        raw_line_fields(line) is Some,
    ensures
        statement(raw_line_fields(line)->0) == line,
{
    let first = first_index_of(line, SPACE);
    let rest = line.subrange(first + 1, line.len() as int);
    let second = first_index_of(rest, SPACE);
    let last = rest.subrange(second + 1, rest.len() as int);
    assert(is_first_index_of(line, SPACE, first)) by {
        lemma_first_index_exists(line, SPACE);
    }
    assert(is_first_index_of(rest, SPACE, second)) by {
        lemma_first_index_exists(rest, SPACE);
    }
    assert(statement(raw_line_fields(line)->0) =~= line);
}

/// Every sequence has a first occurrence in the sense of `is_first_index_of`.
pub proof fn lemma_first_index_exists(s: Seq<u8>, byte: u8)
    ensures
        is_first_index_of(s, byte, first_index_of(s, byte)),
    decreases s.len(),
{
    if s.len() == 0 {
        assert(is_first_index_of(s, byte, 0));
    } else if s[0] == byte {
        assert(is_first_index_of(s, byte, 0));
    } else {
        let tail = s.drop_first();
        lemma_first_index_exists(tail, byte);
        let k = first_index_of(tail, byte);
        assert forall|i: int| 0 <= i < k + 1 implies s[i] != byte by {
            if i > 0 {
                assert(tail[i - 1] == s[i]);
            }
        }
        if k + 1 < s.len() {
            assert(tail[k] == s[k + 1]);
        }
        assert(is_first_index_of(s, byte, k + 1));
    }
}

/// What kind of term stands in a position of a parsed statement.
#[derive(Clone, Copy, Debug, PartialEq, Eq, Structural)]
pub enum TermKind {
    /// An IRI in angle brackets.
    NamedNode,
    /// A blank node.
    BlankNode,
    /// A literal.
    Literal,
    /// A quoted triple.
    Triple,
}

/// One statement as the parser read it: each term as the text that the
/// parser's model prints for it, and the kinds of subject and object.
#[derive(Clone, Debug)]
pub struct ParsedTriple {
    pub subject_kind: TermKind,
    pub subject: Vec<u8>,
    pub predicate: Vec<u8>,
    pub object_kind: TermKind,
    pub object: Vec<u8>,
}

/// A parsed statement as plain values.
pub struct ParsedRecord {
    pub subject_kind: TermKind,
    pub subject: Seq<u8>,
    pub predicate: Seq<u8>,
    pub object_kind: TermKind,
    pub object: Seq<u8>,
}

impl View for ParsedTriple {
    type V = ParsedRecord;

    open spec fn view(&self) -> ParsedRecord {
        ParsedRecord {
            subject_kind: self.subject_kind,
            subject: self.subject@,
            predicate: self.predicate@,
            object_kind: self.object_kind,
            object: self.object@,
        }
    }
}

/// What the parser made of one record: a statement, or the message with
/// which it rejected the record.
pub type ParsedItem = Result<ParsedTriple, Vec<u8>>;

/// What the parser made of one record, as plain values.
pub type ParsedOutcome = Result<ParsedRecord, Seq<u8>>;

/// What the parser made of one record, as plain values.
pub open spec fn parsed_outcome(item: ParsedItem) -> ParsedOutcome {
    match item {
        Ok(triple) => Ok(triple@),
        Err(message) => Err(message@),
    }
}

/// What the parser made of each record of a sequence, as plain values.
pub open spec fn parsed_outcomes(items: Seq<ParsedItem>) -> Seq<ParsedOutcome> {
    items.map_values(|item: ParsedItem| parsed_outcome(item))
}

/// The bytes of each message of a sequence.
pub open spec fn message_views(messages: Seq<Vec<u8>>) -> Seq<Seq<u8>> {
    messages.map_values(|message: Vec<u8>| message@)
}

/// What the N-Triples parser of `rio_turtle` makes of an input, record by
/// record in the order of the input: the statement it read, or the message
/// of the error with which it rejected the record. After a rejected record
/// the parser goes on with the next line.
pub uninterp spec fn ntriples_outcomes(input: Seq<u8>) -> Seq<ParsedOutcome>;

/// `rio_turtle::NTriplesParser` over the whole input, through the iterator
/// that `TriplesParser::into_iter` makes of it: every statement that the
/// parser accepts, converted term by term with the `to_string` of its model,
/// and every error of the parser, converted with its `to_string`.
#[verifier::external_body]
pub(crate) fn parse_ntriples(input: &[u8]) -> (items: Vec<ParsedItem>)
    ensures
        parsed_outcomes(items@) == ntriples_outcomes(input@),
{
    NTriplesParser::new(input).into_iter(|t| {
        let subject_kind = match t.subject {
            Subject::NamedNode(_) => TermKind::NamedNode,
            Subject::BlankNode(_) => TermKind::BlankNode,
            Subject::Triple(_) => TermKind::Triple,
        };
        let object_kind = match t.object {
            Term::NamedNode(_) => TermKind::NamedNode,
            Term::BlankNode(_) => TermKind::BlankNode,
            Term::Literal(_) => TermKind::Literal,
            Term::Triple(_) => TermKind::Triple,
        };
        Ok(ParsedTriple { subject_kind, subject: t.subject.to_string().into_bytes(),
            predicate: t.predicate.to_string().into_bytes(), object_kind, object: t.object.to_string().into_bytes() })
    }).map(|r| r.map_err(|e: TurtleError| e.to_string().into_bytes())).collect()
}

/// The statement is one that the compressor keeps: its subject is a named
/// node, and its object is a named node or a literal.
pub open spec fn parsed_record_kept(record: ParsedRecord) -> bool {
    record.subject_kind == TermKind::NamedNode && (record.object_kind == TermKind::NamedNode
        || record.object_kind == TermKind::Literal)
}

/// The terms of a parsed statement.
pub open spec fn parsed_terms(record: ParsedRecord) -> TermTriple {
    (record.subject, record.predicate, record.object)
}

/// The triples that the parser's outcomes contribute, in their order: the
/// terms of each statement that the compressor keeps.
pub open spec fn kept_triples(outcomes: Seq<ParsedOutcome>) -> Seq<TermTriple>
    decreases outcomes.len(),
{
    if outcomes.len() == 0 {
        Seq::empty()
    } else {
        match outcomes.last() {
            Ok(record) => if parsed_record_kept(record) {
                kept_triples(outcomes.drop_last()).push(parsed_terms(record))
            } else {
                kept_triples(outcomes.drop_last())
            },
            Err(_) => kept_triples(outcomes.drop_last()),
        }
    }
}

/// The messages of the records that the parser rejected, in their order.
pub open spec fn rejections_of(outcomes: Seq<ParsedOutcome>) -> Seq<Seq<u8>>
    decreases outcomes.len(),
{
    if outcomes.len() == 0 {
        Seq::empty()
    } else {
        match outcomes.last() {
            Ok(_) => rejections_of(outcomes.drop_last()),
            Err(message) => rejections_of(outcomes.drop_last()).push(message),
        }
    }
}

/// Collects the messages of the records that the parser rejected.
pub fn rejected_messages(items: &[ParsedItem]) -> (messages: Vec<Vec<u8>>)
    ensures
        message_views(messages@) == rejections_of(parsed_outcomes(items@)),
{
    let mut messages: Vec<Vec<u8>> = Vec::new();
    let n = items.len();
    let mut i: usize = 0;
    while i < n
        invariant
            i <= n,
            n == items@.len(),
            message_views(messages@) == rejections_of(
                parsed_outcomes(items@.subrange(0, i as int)),
            ),
        decreases n - i,
    {
        proof {
            let part = parsed_outcomes(items@.subrange(0, i as int));
            let more = parsed_outcomes(items@.subrange(0, i + 1));
            assert(more.drop_last() =~= part);
            assert(more.last() == parsed_outcome(items@[i as int]));
        }
        let ghost before = messages@;
        match &items[i] {
            Ok(_) => {},
            Err(message) => {
                let copy = vstd::slice::slice_to_vec(message.as_slice());
                messages.push(copy);
                assert(message_views(messages@) =~= message_views(before).push(message@));
            },
        }
        i += 1;
    }
    assert(items@.subrange(0, n as int) =~= items@);
    messages
}

} // verus!
