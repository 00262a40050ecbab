//! The text form of a query spec: a kind, a count, an `x` and a size,
//! as in `i3x500` or `d10x2.5%`.

use crate::ntriples::{find_byte, first_index_of};
use crate::sparql::QueryType;
use vstd::prelude::*;
use vstd::slice::{slice_subrange, slice_to_vec};

verus! {

/// The byte `i`, which stands for insertions.
pub const LETTER_I: u8 = 0x69;

/// The byte `d`, which stands for deletions.
pub const LETTER_D: u8 = 0x64;

/// The byte `x`, which stands between count and size.
pub const LETTER_X: u8 = 0x78;

/// The byte `%`, which marks a size as a share of the dataset.
pub const PERCENT: u8 = 0x25;

/// The byte `+`, which may stand before a number.
pub const PLUS: u8 = 0x2b;

/// Why a text is no query spec.
#[derive(Clone, Copy, Debug, PartialEq, Eq, Structural)]
pub enum QuerySpecError {
    /// The text does not start with `i` or `d`.
    MissingType,
    /// No `x` follows the kind.
    MissingDelimiter,
    /// The count is no integer.
    InvalidCount,
    /// The size is no integer, and no share with one percent sign at its end.
    InvalidSize,
}

/// The size of the queries of a query spec.
#[derive(Clone, Debug)]
pub enum QuerySizeOpt {
    /// So many triples.
    Absolute(usize),
    /// A share of the dataset, in hundredths: the number as it was written,
    /// without the percent sign.
    Percentage(Vec<u8>),
}

/// A query spec as it was written.
#[derive(Clone, Debug)]
pub struct QuerySpecOpt {
    pub n_queries: usize,
    pub n_triples_per_query: QuerySizeOpt,
    pub query_type: QueryType,
}

/// A size as plain values.
pub enum QuerySizeModel {
    Absolute(usize),
    Percentage(Seq<u8>),
}

/// A query spec as plain values.
pub struct QuerySpecModel {
    pub n_queries: usize,
    pub n_triples_per_query: QuerySizeModel,
    pub query_type: QueryType,
}

impl View for QuerySizeOpt {
    type V = QuerySizeModel;

    open spec fn view(&self) -> QuerySizeModel {
        match self {
            QuerySizeOpt::Absolute(n) => QuerySizeModel::Absolute(*n),
            QuerySizeOpt::Percentage(text) => QuerySizeModel::Percentage(text@),
        }
    }
}

impl View for QuerySpecOpt {
    type V = QuerySpecModel;

    open spec fn view(&self) -> QuerySpecModel {
        QuerySpecModel {
            n_queries: self.n_queries,
            n_triples_per_query: self.n_triples_per_query@,
            query_type: self.query_type,
        }
    }
}

/// The byte is a decimal digit.
pub open spec fn is_digit(byte: u8) -> bool {
    0x30 <= byte <= 0x39
}

/// Every byte is a decimal digit.
pub open spec fn all_digits(text: Seq<u8>) -> bool {
    forall|i: int| 0 <= i < text.len() ==> is_digit(#[trigger] text[i])
}

/// The number that decimal digits write.
pub open spec fn digits_value(digits: Seq<u8>) -> nat
    decreases digits.len(),
{
    if digits.len() == 0 {
        0
    } else {
        digits_value(digits.drop_last()) * 10 + (digits.last() - 0x30) as nat
    }
}

/// The text without a plus sign at its start.
pub open spec fn unsigned_part(text: Seq<u8>) -> Seq<u8> {
    if text.len() > 0 && text[0] == PLUS {
        text.subrange(1, text.len() as int)
    } else {
        text
    }
}

/// The integer that a text writes: decimal digits, at least one, with or
/// without a plus sign before them, and a value that the machine can hold.
pub open spec fn parsed_integer(text: Seq<u8>) -> Option<usize> {
    let digits = unsigned_part(text);
    if digits.len() > 0 && all_digits(digits) && digits_value(digits) <= usize::MAX {
        Some(digits_value(digits) as usize)
    } else {
        None
    }
}

/// The text is what may stand before the percent sign of a share: it is not
/// empty and holds no percent sign itself. Whether it writes a number is for
/// the caller to say.
pub open spec fn may_write_share(number: Seq<u8>) -> bool {
    number.len() > 0 && !(0 <= first_index_of(number, PERCENT) < number.len())
}

/// The size that a text writes: a share of the dataset where the text ends
/// with a percent sign, which is the only one in it, else an integer.
pub open spec fn parsed_size(text: Seq<u8>) -> Option<QuerySizeModel> {
    if text.len() > 0 && text.last() == PERCENT {
        if may_write_share(text.drop_last()) {
            Some(QuerySizeModel::Percentage(text.drop_last()))
        } else {
            None
        }
    } else {
        match parsed_integer(text) {
            Some(n) => Some(QuerySizeModel::Absolute(n)),
            None => None,
        }
    }
}

/// What a text means as a query spec. Of several faults the first in the
/// text is named: the kind, the `x`, the count, the size.
pub open spec fn parsed_query_spec(text: Seq<u8>) -> Result<QuerySpecModel, QuerySpecError> {
    let rest = text.subrange(1, text.len() as int);
    let x = first_index_of(rest, LETTER_X);
    let count = rest.subrange(0, x);
    let size = rest.subrange(x + 1, rest.len() as int);
    if text.len() == 0 || (text[0] != LETTER_I && text[0] != LETTER_D) {
        Err(QuerySpecError::MissingType)
    } else if !(0 <= x < rest.len()) {
        Err(QuerySpecError::MissingDelimiter)
    } else if parsed_integer(count) is None {
        Err(QuerySpecError::InvalidCount)
    } else if parsed_size(size) is None {
        Err(QuerySpecError::InvalidSize)
    } else {
        Ok(
            QuerySpecModel {
                n_queries: parsed_integer(count)->0,
                n_triples_per_query: parsed_size(size)->0,
                query_type: if text[0] == LETTER_I {
                    QueryType::InsertData
                } else {
                    QueryType::DeleteData
                },
            },
        )
    }
}

/// Adding a digit at the end never makes the number smaller.
proof fn lemma_digits_value_grows(digits: Seq<u8>, i: int)
    requires
        0 <= i <= digits.len(),
    ensures
        digits_value(digits.subrange(0, i)) <= digits_value(digits),
    decreases digits.len() - i,
{
    if i < digits.len() {
        lemma_digits_value_grows(digits, i + 1);
        assert(digits.subrange(0, i + 1).drop_last() =~= digits.subrange(0, i));
    } else {
        assert(digits.subrange(0, i) =~= digits);
    }
}

/// Reads an integer: decimal digits, with or without a plus sign before them.
pub fn parse_integer(text: &[u8]) -> (r: Option<usize>)
    ensures
        r == parsed_integer(text@),
{
    let n = text.len();
    let start: usize = if n > 0 && text[0] == PLUS {
        1
    } else {
        0
    };
    let ghost digits = unsigned_part(text@);
    assert(digits =~= text@.subrange(start as int, n as int));
    if start == n {
        return None;
    }
    let mut value: usize = 0;
    let mut i: usize = start;
    while i < n
        invariant
            start <= i <= n,
            n == text@.len(),
            digits == unsigned_part(text@),
            digits == text@.subrange(start as int, n as int),
            all_digits(digits.subrange(0, i - start)),
            value == digits_value(digits.subrange(0, i - start)),
        decreases n - i,
    {
        let byte = text[i];
        let ghost part = digits.subrange(0, i - start);
        let ghost more = digits.subrange(0, i - start + 1);
        proof {
            assert(more.drop_last() =~= part);
            assert(more.last() == byte);
        }
        if byte < 0x30 || byte > 0x39 {
            assert(!is_digit(digits[i - start]));
            return None;
        }
        let digit = (byte - 0x30) as usize;
        if value > (usize::MAX - digit) / 10 {
            proof {
                lemma_digits_value_grows(digits, i - start + 1);
            }
            return None;
        }
        value = value * 10 + digit;
        proof {
            assert forall|k: int| 0 <= k < more.len() implies is_digit(#[trigger] more[k]) by {
                if k < part.len() {
                    assert(is_digit(part[k]));
                }
            }
        }
        i += 1;
    }
    assert(digits.subrange(0, n - start) =~= digits);
    Some(value)
}

/// Takes the percent sign off the end of a share, if what stands before it
/// may stand there.
fn strip_percent_sign(text: &[u8]) -> (r: Option<&[u8]>)
    requires
        text@.len() > 0,
        text@.last() == PERCENT,
    ensures
        match r {
            Some(number) => may_write_share(text@.drop_last()) && number@ == text@.drop_last(),
            None => !may_write_share(text@.drop_last()),
        },
{
    let number = slice_subrange(text, 0, text.len() - 1);
    assert(number@ =~= text@.drop_last());
    let l = number.len();
    let at = find_byte(number, 0, PERCENT);
    assert(number@.subrange(0, l as int) =~= number@);
    if l == 0 || at < l {
        None
    } else {
        Some(number)
    }
}

/// Reads a query spec.
///
/// A size that ends with a percent sign is handed back as it was written,
/// without the percent sign: what number it writes is for the caller to say.
pub fn parse_query_spec(text: &[u8]) -> (r: Result<QuerySpecOpt, QuerySpecError>)
    ensures
        match r {
            Ok(spec) => parsed_query_spec(text@) == Ok::<QuerySpecModel, QuerySpecError>(spec@),
            Err(e) => parsed_query_spec(text@) == Err::<QuerySpecModel, QuerySpecError>(e),
        },
{
    let n = text.len();
    if n == 0 {
        return Err(QuerySpecError::MissingType);
    }
    let query_type = if text[0] == LETTER_I {
        QueryType::InsertData
    } else if text[0] == LETTER_D {
        QueryType::DeleteData
    } else {
        return Err(QuerySpecError::MissingType);
    };
    let rest = slice_subrange(text, 1, n);
    let m = rest.len();
    let x = find_byte(rest, 0, LETTER_X);
    assert(rest@.subrange(0, m as int) =~= rest@);
    if x >= m {
        return Err(QuerySpecError::MissingDelimiter);
    }
    let count = slice_subrange(rest, 0, x);
    let size = slice_subrange(rest, x + 1, m);
    let n_queries = match parse_integer(count) {
        Some(n_queries) => n_queries,
        None => {
            return Err(QuerySpecError::InvalidCount);
        },
    };
    let l = size.len();
    let n_triples_per_query = if l > 0 && size[l - 1] == PERCENT {
        match strip_percent_sign(size) {
            Some(number) => QuerySizeOpt::Percentage(slice_to_vec(number)),
            None => {
                return Err(QuerySpecError::InvalidSize);
            },
        }
    } else {
        match parse_integer(size) {
            Some(n_triples) => QuerySizeOpt::Absolute(n_triples),
            None => {
                return Err(QuerySpecError::InvalidSize);
            },
        }
    };
    Ok(QuerySpecOpt { n_queries, n_triples_per_query, query_type })
}

} // verus!
