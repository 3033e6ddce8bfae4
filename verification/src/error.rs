//! Error kinds shared by every decoder and traversal in the crate.
use vstd::prelude::*;

verus! {

/// Why a decode step or a traversal failed.
///
/// Every failure is reported; a malformed page or cell aborts the traversal
/// in progress and the caller sees one of these kinds.
#[derive(Debug, Clone, Copy, PartialEq, Eq, Structural)]
pub enum DbError {
    /// The file header magic is wrong, or the file length is not an exact
    /// multiple of the declared page size.
    FormatMismatch,
    /// An offset or length computed from decoded values runs past the end of
    /// the available buffer, or a page tree is deeper than the page count
    /// allows.
    OutOfRangeRead,
    /// A record header holds a serial-type code with no meaning (10, 11, or a
    /// negative value).
    InvalidSerialType,
    /// A page's leading type byte is none of the four b-tree page types, or a
    /// page of the wrong kind stands in a table or index tree.
    InvalidPageType,
    /// A cell index at or beyond the page's cell count.
    InvalidCellIndex,
    /// Text column bytes that are not valid UTF-8.
    Utf8DecodeError,
}

} // verus!
