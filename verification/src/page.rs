//! One fixed-size page of the database file: its b-tree page header, its
//! type, and the packed array of cell-pointer offsets.
use vstd::prelude::*;

use crate::cell::{spec_cell, Cell, CellView};
use crate::column::ColumnView;
use crate::database::DbHeader;
use crate::error::DbError;
use crate::record::{be_bytes, lemma_be_bytes_bound, lemma_pow256_unfold, read_be, Record};

verus! {

/// The b-tree page kind, given by the page's leading byte: 2, 5, 10 and 13
/// are the four valid kinds; every other byte is the error kind, whose cells
/// can never be read.
#[derive(Debug, Clone, Copy, PartialEq, Eq, Structural)]
pub enum PageType {
    /// An interior index b-tree page (leading byte 2).
    InteriorIndex,
    /// An interior table b-tree page (leading byte 5).
    InteriorTable,
    /// A leaf index b-tree page (leading byte 10).
    LeafIndex,
    /// A leaf table b-tree page (leading byte 13).
    LeafTable,
    /// Any other leading byte.
    PageError,
}

/// The page type a leading byte declares.
pub open spec fn spec_page_type(b: u8) -> PageType {
    if b == 2 {
        PageType::InteriorIndex
    } else if b == 5 {
        PageType::InteriorTable
    } else if b == 10 {
        PageType::LeafIndex
    } else if b == 13 {
        PageType::LeafTable
    } else {
        PageType::PageError
    }
}

impl PageType {
    /// Whether this kind of page carries a right-most child pointer.
    pub open spec fn is_interior(self) -> bool {
        self == PageType::InteriorTable || self == PageType::InteriorIndex
    }

    /// Classify a page's leading byte.
    pub fn from_byte(value: u8) -> (t: PageType)
        ensures
            t == spec_page_type(value),
    {
        if value == 2 {
            PageType::InteriorIndex
        } else if value == 5 {
            PageType::InteriorTable
        } else if value == 10 {
            PageType::LeafIndex
        } else if value == 13 {
            PageType::LeafTable
        } else {
            PageType::PageError
        }
    }
}

/// How many bytes the b-tree page header occupies: interior pages carry a
/// right-most child pointer in four extra bytes.
pub open spec fn spec_btree_header_size(t: PageType) -> int {
    if t.is_interior() {
        12
    } else {
        8
    }
}

/// The b-tree page header, read from the first 8 or 12 bytes of the page's
/// header area.
#[derive(Debug, Clone, PartialEq, Eq)]
pub struct BTreePageHeader {
    /// The one-byte flag at offset 0 indicating the b-tree page type.
    pub page_type: PageType,
    pub freeblock_offset: u16,
    pub ncells: u16,
    pub cells_start: u16,
    pub nfragemented_free: u8,
    /// Present exactly on the interior page types.
    pub right_most_pointer: Option<u32>,
}

/// The header encoded in the 12 bytes at the front of `h`.
pub open spec fn spec_btree_header(h: Seq<u8>) -> BTreePageHeader
    recommends
        h.len() >= 12,
{
    let t = spec_page_type(h[0]);
    BTreePageHeader {
        page_type: t,
        freeblock_offset: be_bytes(h, 1, 2) as u16,
        ncells: be_bytes(h, 3, 2) as u16,
        cells_start: be_bytes(h, 5, 2) as u16,
        nfragemented_free: h[7],
        right_most_pointer: if t.is_interior() {
            Some(be_bytes(h, 8, 4) as u32)
        } else {
            None
        },
    }
}

impl BTreePageHeader {
    /// Parse a page header from its first 12 bytes.
    pub fn new(header: &[u8]) -> (r: Result<BTreePageHeader, DbError>)
        requires
            header@.len() >= 12,
        ensures
            r == Ok::<BTreePageHeader, DbError>(spec_btree_header(header@)),
    {
        proof {
            lemma_pow256_unfold();
            lemma_be_bytes_bound(header@, 1, 2);
            lemma_be_bytes_bound(header@, 3, 2);
            lemma_be_bytes_bound(header@, 5, 2);
            lemma_be_bytes_bound(header@, 8, 4);
        }
        let page_type = PageType::from_byte(header[0]);
        let right_most_pointer = if matches!(page_type, PageType::InteriorTable) || matches!(
            page_type,
            PageType::InteriorIndex,
        ) {
            Some(read_be(header, 8, 4) as u32)
        } else {
            None
        };
        Ok(
            BTreePageHeader {
                page_type,
                freeblock_offset: read_be(header, 1, 2) as u16,
                ncells: read_be(header, 3, 2) as u16,
                cells_start: read_be(header, 5, 2) as u16,
                nfragemented_free: header[7],
                right_most_pointer,
            },
        )
    }

    /// The number of cells stored on the page.
    pub fn ncells(&self) -> (n: u16)
        ensures
            n == self.ncells,
    {
        self.ncells
    }
}

/// One page of the file.  Page 0 keeps the whole page in `buffer`, file
/// header included; its b-tree header starts at offset 100.
#[derive(Debug, Clone, PartialEq, Eq)]
pub struct Page {
    /// The page's position in the file, counted from zero.
    pub index: usize,
    /// The decoded file header, kept on page 0 alone.
    pub db_header: Option<DbHeader>,
    pub btree_header: BTreePageHeader,
    pub buffer: Vec<u8>,
    /// One offset per cell, each relative to the start of `buffer`.
    pub cell_offsets: Vec<u16>,
}

/// Where a page's b-tree header starts: after the 100-byte file header on
/// page 0, at the front everywhere else.
pub open spec fn spec_header_offset(index: int) -> int {
    if index == 0 {
        100
    } else {
        0
    }
}

/// The cell-pointer array: `ncells` big-endian 16-bit offsets packed right
/// after the b-tree header.
pub open spec fn spec_cell_offsets(buf: Seq<u8>, index: int, h: BTreePageHeader) -> Seq<u16> {
    Seq::new(
        h.ncells as nat,
        |i: int|
            be_bytes(
                buf,
                spec_header_offset(index) + spec_btree_header_size(h.page_type) + 2 * i,
                2,
            ) as u16,
    )
}

/// A page's header area and cell-pointer array both lie inside its buffer.
pub open spec fn spec_page_ok(index: int, buf: Seq<u8>) -> bool {
    let off = spec_header_offset(index);
    &&& off + 12 <= buf.len()
    &&& ({
        let h = spec_btree_header(buf.subrange(off, off + 12));
        off + spec_btree_header_size(h.page_type) + 2 * (h.ncells as int) <= buf.len()
    })
}

impl Page {
    /// The parsed fields all agree with the page's own bytes.
    pub open spec fn wf(self) -> bool {
        let off = spec_header_offset(self.index as int);
        &&& spec_page_ok(self.index as int, self.buffer@)
        &&& self.btree_header == spec_btree_header(self.buffer@.subrange(off, off + 12))
        &&& self.cell_offsets@ == spec_cell_offsets(self.buffer@, self.index as int, self.btree_header)
        &&& self.cell_offsets@.len() == self.btree_header.ncells
    }

    /// Parse one page from its raw bytes.  Fails exactly when the header
    /// area or the cell-pointer array runs past the end of the buffer.
    pub fn new(idx: usize, db_header: Option<DbHeader>, b_tree_page: &[u8]) -> (r: Result<
        Page,
        DbError,
    >)
        ensures
            match r {
                Ok(p) => {
                    &&& p.wf()
                    &&& p.index == idx
                    &&& p.db_header == db_header
                    &&& p.buffer@ == b_tree_page@
                    &&& spec_page_ok(idx as int, b_tree_page@)
                },
                Err(e) => {
                    &&& e == DbError::OutOfRangeRead
                    &&& !spec_page_ok(idx as int, b_tree_page@)
                },
            },
    {
        let plen = b_tree_page.len();
        let off: usize = if idx == 0 {
            100
        } else {
            0
        };
        if plen < 12 || off > plen - 12 {
            return Err(DbError::OutOfRangeRead);
        }
        let hdr_slice = vstd::slice::slice_subrange(b_tree_page, off, off + 12);
        let btree_header = match BTreePageHeader::new(hdr_slice) {
            Ok(h) => h,
            Err(e) => {
                return Err(e);
            },
        };
        proof {
            assert(hdr_slice@ == b_tree_page@.subrange(off as int, off as int + 12));
        }
        let header_size: usize = match btree_header.page_type {
            PageType::InteriorIndex | PageType::InteriorTable => 12,
            _ => 8,
        };
        let ncells = btree_header.ncells as usize;
        if plen - off < header_size || (plen - off - header_size) / 2 < ncells {
            return Err(DbError::OutOfRangeRead);
        }
        let mut cell_offsets: Vec<u16> = Vec::new();
        let ghost goal = spec_cell_offsets(b_tree_page@, idx as int, btree_header);
        let mut i: usize = 0;
        while i < ncells
            invariant
                0 <= i <= ncells,
                ncells == btree_header.ncells,
                off + header_size + 2 * ncells <= b_tree_page@.len(),
                header_size == spec_btree_header_size(btree_header.page_type),
                off == spec_header_offset(idx as int),
                goal == spec_cell_offsets(b_tree_page@, idx as int, btree_header),
                cell_offsets@.len() == i,
                forall|j: int| 0 <= j < i ==> cell_offsets@[j] == goal[j],
            decreases ncells - i,
        {
            proof {
                lemma_pow256_unfold();
                lemma_be_bytes_bound(b_tree_page@, off + header_size + 2 * (i as int), 2);
            }
            let num = read_be(b_tree_page, off + header_size + 2 * i, 2) as u16;
            cell_offsets.push(num);
            i = i + 1;
        }
        proof {
            assert(cell_offsets@ =~= goal);
        }
        Ok(Page { index: idx, db_header, btree_header, buffer: slice_to_vec_u8(b_tree_page), cell_offsets })
    }

    /// Decode the `i`-th cell and expose its rowid and record, each present
    /// only where the page's type stores it.
    pub fn read_cell(&self, i: u16) -> (r: Result<(Option<i64>, Option<Record>), DbError>)
        requires
            self.wf(),
        ensures
            i >= self.btree_header.ncells ==> r == Err::<(Option<i64>, Option<Record>), DbError>(
                DbError::InvalidCellIndex,
            ),
            i < self.btree_header.ncells ==> ({
                let c = spec_cell(
                    self.btree_header.page_type,
                    self.buffer@,
                    self.cell_offsets@[i as int] as int,
                );
                match r {
                    Ok(pair) => c matches Ok(cv) && (pair.0, spec_opt_record(pair.1))
                        == spec_cell_pair(cv),
                    Err(e) => c == Err::<CellView, DbError>(e),
                }
            }),
    {
        if i >= self.btree_header.ncells {
            return Err(DbError::InvalidCellIndex);
        }
        let offset = self.cell_offsets[i as usize] as usize;
        let cell = match Cell::from_bytes(
            &self.btree_header.page_type,
            offset,
            self.buffer.as_slice(),
        ) {
            Ok(c) => c,
            Err(e) => {
                return Err(e);
            },
        };
        match cell {
            Cell::LeafTable { rowid, record, .. } => Ok((Some(rowid), Some(record))),
            Cell::InteriorTable { rowid, .. } => Ok((Some(rowid), None)),
            Cell::LeafIndex { record, .. } => Ok((None, Some(record))),
            Cell::InteriorIndex { record, .. } => Ok((None, Some(record))),
        }
    }

    /// The page's b-tree type.
    pub fn page_type(&self) -> (t: &PageType)
        ensures
            *t == self.btree_header.page_type,
    {
        &self.btree_header.page_type
    }
}

/// The rowid and record a cell exposes through `read_cell`.
pub open spec fn spec_cell_pair(c: CellView) -> (Option<i64>, Option<Seq<ColumnView>>) {
    match c {
        CellView::LeafTable { rowid, record, .. } => (Some(rowid), Some(record)),
        CellView::InteriorTable { rowid, .. } => (Some(rowid), None),
        CellView::LeafIndex { record, .. } => (None, Some(record)),
        CellView::InteriorIndex { record, .. } => (None, Some(record)),
    }
}

/// The view of an optional record.
pub open spec fn spec_opt_record(o: Option<Record>) -> Option<Seq<ColumnView>> {
    match o {
        Some(r) => Some(r@),
        None => None,
    }
}

/// Copy a byte slice into an owned buffer.
fn slice_to_vec_u8(s: &[u8]) -> (v: Vec<u8>)
    ensures
        v@ == s@,
{
    vstd::slice::slice_to_vec(s)
}

} // verus!
