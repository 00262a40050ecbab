//! The errors that the library reports.

use vstd::prelude::*;

verus! {

/// A file whose bytes do not follow the layout that its kind of file has.
#[derive(Clone, Copy, Debug, PartialEq, Eq, Structural)]
pub enum FormatError {
    /// A compressed triple file whose size is not a multiple of the record size.
    TripleFileSize,
    /// A dictionary file that ends before its header does.
    DictionaryTruncated,
    /// A dictionary file whose header size is not a multiple of the record size.
    DictionaryHeaderSize,
    /// A dictionary header whose records do not ascend strictly by identifier.
    DictionaryOrder,
    /// A dictionary header whose offsets leave the data segment, overlap or leave gaps.
    DictionaryOffsets,
}

} // verus!
