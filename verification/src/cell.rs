//! One cell of a b-tree page.  The owning page's type decides the cell's
//! shape: table leaves carry a rowid and a record, table interiors a left
//! child and a rowid, index cells a record keyed by its leading columns.
use vstd::prelude::*;

use crate::column::ColumnView;
use crate::error::DbError;
use crate::page::PageType;
use crate::record::{be_bytes, lemma_be_bytes_bound, lemma_pow256_unfold, read_be, spec_record, Record};
use crate::varint::{varint_complete, varint_len, varint_value, Varint};

verus! {

/// One decoded cell; the variant matches the owning page's type, and each
/// variant carries only the fields that exist for it.
#[derive(Debug, Clone, PartialEq, Eq)]
pub enum Cell {
    /// A table leaf cell: payload size, rowid, the record, and the first
    /// overflow page when the buffer extends past the payload.
    LeafTable {
        npayload: i64,
        rowid: i64,
        record: Record,
        page_number_first_overflow: Option<u32>,
    },
    /// A table interior cell: a left child page number and a rowid bound.
    InteriorTable { page_number_left_child: u32, rowid: i64 },
    /// An index leaf cell: payload size and the record; the record's
    /// trailing column is the referenced table rowid.
    LeafIndex { npayload: i64, record: Record },
    /// An index interior cell: a left child page number, payload size, the
    /// record, and the first overflow page when present.
    InteriorIndex {
        page_number_left_child: u32,
        npayload: i64,
        record: Record,
        page_number_first_overflow: Option<u32>,
    },
}

/// The mathematical shape of one decoded cell.
pub enum CellView {
    LeafTable {
        npayload: i64,
        rowid: i64,
        record: Seq<ColumnView>,
        page_number_first_overflow: Option<u32>,
    },
    InteriorTable { page_number_left_child: u32, rowid: i64 },
    LeafIndex { npayload: i64, record: Seq<ColumnView> },
    InteriorIndex {
        page_number_left_child: u32,
        npayload: i64,
        record: Seq<ColumnView>,
        page_number_first_overflow: Option<u32>,
    },
}

impl View for Cell {
    type V = CellView;

    open spec fn view(&self) -> CellView {
        match self {
            Cell::LeafTable { npayload, rowid, record, page_number_first_overflow } =>
                CellView::LeafTable {
                    npayload: *npayload,
                    rowid: *rowid,
                    record: record@,
                    page_number_first_overflow: *page_number_first_overflow,
                },
            Cell::InteriorTable { page_number_left_child, rowid } => CellView::InteriorTable {
                page_number_left_child: *page_number_left_child,
                rowid: *rowid,
            },
            Cell::LeafIndex { npayload, record } => CellView::LeafIndex {
                npayload: *npayload,
                record: record@,
            },
            Cell::InteriorIndex {
                page_number_left_child,
                npayload,
                record,
                page_number_first_overflow,
            } => CellView::InteriorIndex {
                page_number_left_child: *page_number_left_child,
                npayload: *npayload,
                record: record@,
                page_number_first_overflow: *page_number_first_overflow,
            },
        }
    }
}

/// The cell encoded at `offset` of a page buffer of type `t`.  Decoding
/// fails on the error page type, on any read past the buffer's end, and on
/// any failure of the record decoder.
pub open spec fn spec_cell(t: PageType, buf: Seq<u8>, offset: int) -> Result<CellView, DbError> {
    if offset < 0 || offset > buf.len() {
        Err(DbError::OutOfRangeRead)
    } else {
        match t {
            PageType::LeafTable => {
                let t1 = buf.skip(offset);
                if !varint_complete(t1) {
                    Err(DbError::OutOfRangeRead)
                } else {
                    let np = varint_value(t1);
                    let i2 = offset + varint_len(t1);
                    let t2 = buf.skip(i2);
                    if !varint_complete(t2) {
                        Err(DbError::OutOfRangeRead)
                    } else {
                        let rowid = varint_value(t2);
                        let ps = i2 + varint_len(t2);
                        if np < 0 || ps + np > buf.len() {
                            Err(DbError::OutOfRangeRead)
                        } else {
                            match spec_record(buf.subrange(ps, ps + np)) {
                                Err(e) => Err(e),
                                Ok(cols) => Ok(
                                    CellView::LeafTable {
                                        npayload: np,
                                        rowid: rowid,
                                        record: cols,
                                        page_number_first_overflow: spec_overflow(buf, ps + np),
                                    },
                                ),
                            }
                        }
                    }
                }
            },
            PageType::InteriorTable => {
                if offset + 4 > buf.len() {
                    Err(DbError::OutOfRangeRead)
                } else {
                    let t2 = buf.skip(offset + 4);
                    if !varint_complete(t2) {
                        Err(DbError::OutOfRangeRead)
                    } else {
                        Ok(
                            CellView::InteriorTable {
                                page_number_left_child: be_bytes(buf, offset, 4) as u32,
                                rowid: varint_value(t2),
                            },
                        )
                    }
                }
            },
            PageType::LeafIndex => {
                let t1 = buf.skip(offset);
                if !varint_complete(t1) {
                    Err(DbError::OutOfRangeRead)
                } else {
                    let np = varint_value(t1);
                    let ps = offset + varint_len(t1);
                    if np < 0 || ps + np > buf.len() {
                        Err(DbError::OutOfRangeRead)
                    } else {
                        match spec_record(buf.subrange(ps, ps + np)) {
                            Err(e) => Err(e),
                            Ok(cols) => Ok(CellView::LeafIndex { npayload: np, record: cols }),
                        }
                    }
                }
            },
            PageType::InteriorIndex => {
                if offset + 4 > buf.len() {
                    Err(DbError::OutOfRangeRead)
                } else {
                    let t1 = buf.skip(offset + 4);
                    if !varint_complete(t1) {
                        Err(DbError::OutOfRangeRead)
                    } else {
                        let np = varint_value(t1);
                        let ps = offset + 4 + varint_len(t1);
                        if np < 0 || ps + np > buf.len() {
                            Err(DbError::OutOfRangeRead)
                        } else {
                            match spec_record(buf.subrange(ps, ps + np)) {
                                Err(e) => Err(e),
                                Ok(cols) => Ok(
                                    CellView::InteriorIndex {
                                        page_number_left_child: be_bytes(buf, offset, 4) as u32,
                                        npayload: np,
                                        record: cols,
                                        page_number_first_overflow: spec_overflow(buf, ps + np),
                                    },
                                ),
                            }
                        }
                    }
                }
            },
            PageType::PageError => Err(DbError::InvalidPageType),
        }
    }
}

/// The overflow page number stored right after the payload, when the buffer
/// extends at least four bytes past the payload's end.
pub open spec fn spec_overflow(buf: Seq<u8>, end: int) -> Option<u32> {
    if end + 4 <= buf.len() {
        Some(be_bytes(buf, end, 4) as u32)
    } else {
        None
    }
}

impl Cell {
    /// Decode the cell at `offset` of a page buffer of type `page_type`.
    pub fn from_bytes(page_type: &PageType, offset: usize, bytes: &[u8]) -> (r: Result<
        Cell,
        DbError,
    >)
        ensures
            match r {
                Ok(c) => spec_cell(*page_type, bytes@, offset as int) == Ok::<CellView, DbError>(
                    c@,
                ),
                Err(e) => spec_cell(*page_type, bytes@, offset as int) == Err::<
                    CellView,
                    DbError,
                >(e),
            },
    {
        let blen = bytes.len();
        if offset > blen {
            return Err(DbError::OutOfRangeRead);
        }
        match page_type {
            PageType::LeafTable => {
                let (np_v, sz1) = match Varint::read(bytes, offset) {
                    Ok(p) => p,
                    Err(e) => {
                        return Err(e);
                    },
                };
                let i2 = offset + sz1;
                let (rowid_v, sz2) = match Varint::read(bytes, i2) {
                    Ok(p) => p,
                    Err(e) => {
                        return Err(e);
                    },
                };
                let ps = i2 + sz2;
                let np = np_v.0;
                if np < 0 || (np as u64) > (blen - ps) as u64 {
                    return Err(DbError::OutOfRangeRead);
                }
                let end = ps + np as usize;
                let payload = vstd::slice::slice_subrange(bytes, ps, end);
                let record = match Record::new(payload) {
                    Ok(rec) => rec,
                    Err(e) => {
                        return Err(e);
                    },
                };
                let page_number_first_overflow = read_overflow(bytes, end);
                Ok(
                    Cell::LeafTable {
                        npayload: np,
                        rowid: rowid_v.0,
                        record,
                        page_number_first_overflow,
                    },
                )
            },
            PageType::InteriorTable => {
                if blen - offset < 4 {
                    return Err(DbError::OutOfRangeRead);
                }
                proof {
                    lemma_pow256_unfold();
                    lemma_be_bytes_bound(bytes@, offset as int, 4);
                }
                let page_number_left_child = read_be(bytes, offset, 4) as u32;
                let (rowid_v, _sz) = match Varint::read(bytes, offset + 4) {
                    Ok(p) => p,
                    Err(e) => {
                        return Err(e);
                    },
                };
                Ok(Cell::InteriorTable { page_number_left_child, rowid: rowid_v.0 })
            },
            PageType::LeafIndex => {
                let (np_v, sz1) = match Varint::read(bytes, offset) {
                    Ok(p) => p,
                    Err(e) => {
                        return Err(e);
                    },
                };
                let ps = offset + sz1;
                let np = np_v.0;
                if np < 0 || (np as u64) > (blen - ps) as u64 {
                    return Err(DbError::OutOfRangeRead);
                }
                let end = ps + np as usize;
                let payload = vstd::slice::slice_subrange(bytes, ps, end);
                let record = match Record::new(payload) {
                    Ok(rec) => rec,
                    Err(e) => {
                        return Err(e);
                    },
                };
                Ok(Cell::LeafIndex { npayload: np, record })
            },
            PageType::InteriorIndex => {
                if blen - offset < 4 {
                    return Err(DbError::OutOfRangeRead);
                }
                proof {
                    lemma_pow256_unfold();
                    lemma_be_bytes_bound(bytes@, offset as int, 4);
                }
                let page_number_left_child = read_be(bytes, offset, 4) as u32;
                let (np_v, sz1) = match Varint::read(bytes, offset + 4) {
                    Ok(p) => p,
                    Err(e) => {
                        return Err(e);
                    },
                };
                let ps = offset + 4 + sz1;
                let np = np_v.0;
                if np < 0 || (np as u64) > (blen - ps) as u64 {
                    return Err(DbError::OutOfRangeRead);
                }
                let end = ps + np as usize;
                let payload = vstd::slice::slice_subrange(bytes, ps, end);
                let record = match Record::new(payload) {
                    Ok(rec) => rec,
                    Err(e) => {
                        return Err(e);
                    },
                };
                let page_number_first_overflow = read_overflow(bytes, end);
                Ok(
                    Cell::InteriorIndex {
                        page_number_left_child,
                        npayload: np,
                        record,
                        page_number_first_overflow,
                    },
                )
            },
            PageType::PageError => Err(DbError::InvalidPageType),
        }
    }
}

/// Read the overflow page number after a payload ending at `end`, when the
/// buffer reaches that far.
fn read_overflow(bytes: &[u8], end: usize) -> (r: Option<u32>)
    ensures
        r == spec_overflow(bytes@, end as int),
{
    let blen = bytes.len();
    if end <= blen && blen - end >= 4 {
        proof {
            lemma_pow256_unfold();
            lemma_be_bytes_bound(bytes@, end as int, 4);
        }
        Some(read_be(bytes, end, 4) as u32)
    } else {
        None
    }
}

} // verus!
