//! The meaning of a b-tree walk: the rows a table tree holds, the rows a
//! pruned walk keeps, and the rowids an index search finds.  The traversal
//! code in `database` is verified against these shapes, and the laws about
//! pruning and index search are proved from them alone.
use vstd::prelude::*;

use crate::cell::{spec_cell, CellView};
use crate::column::ColumnView;
use crate::error::DbError;
use crate::page::{Page, PageType};

verus! {

/// The decode of the `i`-th cell of a page.
pub open spec fn spec_cell_at(p: Page, i: int) -> Result<CellView, DbError>
    recommends
        0 <= i < p.cell_offsets@.len(),
{
    spec_cell(p.btree_header.page_type, p.buffer@, p.cell_offsets@[i] as int)
}

/// The rows of a table leaf page from its `i`-th cell on, in cell order:
/// each cell contributes its rowid and record.
pub open spec fn spec_leaf_rows(p: Page, i: int) -> Result<Seq<(i64, Seq<ColumnView>)>, DbError>
    decreases (if p.cell_offsets@.len() - i > 0 {
        p.cell_offsets@.len() - i
    } else {
        0
    }),
{
    if i < 0 || i >= p.cell_offsets@.len() {
        Ok(Seq::empty())
    } else {
        match spec_cell_at(p, i) {
            Err(e) => Err(e),
            Ok(c) => match c {
                CellView::LeafTable { rowid, record, .. } => match spec_leaf_rows(p, i + 1) {
                    Err(e) => Err(e),
                    Ok(rest) => Ok(seq![(rowid, record)] + rest),
                },
                _ => Err(DbError::InvalidPageType),
            },
        }
    }
}

/// The rows of the table tree rooted at page `idx` (zero-based), in-order:
/// each interior cell's left subtree, then the right-most subtree.  A
/// reference to a page outside the file contributes nothing; a tree deeper
/// than `fuel` or a page of the wrong kind is an error.
pub open spec fn spec_table_rows(pages: Seq<Page>, idx: int, fuel: nat) -> Result<
    Seq<(i64, Seq<ColumnView>)>,
    DbError,
>
    decreases fuel, 0int, 0int,
{
    if !(0 <= idx < pages.len()) {
        Ok(Seq::empty())
    } else {
        let p = pages[idx];
        match p.btree_header.page_type {
            PageType::LeafTable => spec_leaf_rows(p, 0),
            PageType::InteriorTable => if fuel == 0 {
                Err(DbError::OutOfRangeRead)
            } else {
                spec_interior_rows(pages, idx, 0, (fuel - 1) as nat)
            },
            _ => Err(DbError::InvalidPageType),
        }
    }
}

/// The rows below an interior table page from its `i`-th cell on; after the
/// last cell, the rows below the right-most child.
pub open spec fn spec_interior_rows(pages: Seq<Page>, idx: int, i: int, fuel: nat) -> Result<
    Seq<(i64, Seq<ColumnView>)>,
    DbError,
>
    recommends
        0 <= idx < pages.len(),
    decreases
            fuel,
            (if pages[idx].cell_offsets@.len() - i > 0 {
                pages[idx].cell_offsets@.len() - i
            } else {
                0
            }),
            1int,
{
    let p = pages[idx];
    if i < 0 || i >= p.cell_offsets@.len() {
        match p.btree_header.right_most_pointer {
            Some(num) => spec_table_rows(pages, num as int - 1, fuel),
            None => Ok(Seq::empty()),
        }
    } else {
        match spec_cell_at(p, i) {
            Err(e) => Err(e),
            Ok(c) => match c {
                CellView::InteriorTable { page_number_left_child, .. } => {
                    match spec_table_rows(pages, page_number_left_child as int - 1, fuel) {
                        Err(e) => Err(e),
                        Ok(child) => match spec_interior_rows(pages, idx, i + 1, fuel) {
                            Err(e) => Err(e),
                            Ok(rest) => Ok(child + rest),
                        },
                    }
                },
                _ => Err(DbError::InvalidPageType),
            },
        }
    }
}

/// All values strictly increase.
pub open spec fn sorted_strict(ids: Seq<i64>) -> bool {
    forall|k1: int, k2: int| 0 <= k1 < k2 < ids.len() ==> ids[k1] < ids[k2]
}

/// The set of rowids a sequence holds.
pub open spec fn idset(s: Seq<i64>) -> Set<i64> {
    Set::new(|x: i64| s.contains(x))
}

/// Below the first position whose value reaches `key`, every value falls
/// short of it; at that position, when it exists, the value reaches it.
pub proof fn lemma_lower_bound_char(ids: Seq<i64>, lo: int, key: i64)
    requires
        0 <= lo <= ids.len(),
    ensures
        ({
            let r = spec_lower_bound(ids, lo, key);
            &&& lo <= r <= ids.len()
            &&& forall|m: int| lo <= m < r ==> ids[m] < key
            &&& (r < ids.len() ==> ids[r] >= key)
        }),
    decreases ids.len() - lo,
{
    if lo < ids.len() && ids[lo] < key {
        lemma_lower_bound_char(ids, lo + 1, key);
    }
}

/// The rows of `rows` whose rowid stands in `ids`, in the same order.
pub open spec fn spec_rows_with_ids(rows: Seq<(i64, Seq<ColumnView>)>, ids: Seq<i64>) -> Seq<
    (i64, Seq<ColumnView>),
>
    decreases rows.len(),
{
    if rows.len() == 0 {
        Seq::empty()
    } else {
        let rest = spec_rows_with_ids(rows.drop_last(), ids);
        if ids.contains(rows.last().0) {
            rest.push(rows.last())
        } else {
            rest
        }
    }
}

/// Concatenation unions the held sets.
pub proof fn lemma_idset_concat(a: Seq<i64>, b: Seq<i64>)
    ensures
        idset(a + b) == idset(a).union(idset(b)),
{
    assert forall|x: i64| idset(a + b).contains(x) implies idset(a).union(idset(b)).contains(
        x,
    ) by {
        let k = choose|k: int| 0 <= k < (a + b).len() && (a + b)[k] == x;
        if k < a.len() {
            assert(a[k] == x);
        } else {
            assert(b[k - a.len()] == x);
        }
    }
    assert forall|x: i64| idset(a).union(idset(b)).contains(x) implies idset(a + b).contains(
        x,
    ) by {
        if idset(a).contains(x) {
            let k = choose|k: int| 0 <= k < a.len() && a[k] == x;
            assert((a + b)[k] == x);
        } else {
            let k = choose|k: int| 0 <= k < b.len() && b[k] == x;
            assert((a + b)[a.len() + k] == x);
        }
    }
    assert(idset(a + b) =~= idset(a).union(idset(b)));
}

/// Keeping wanted rows distributes over concatenation.
pub proof fn lemma_rows_with_ids_concat(
    a: Seq<(i64, Seq<ColumnView>)>,
    b: Seq<(i64, Seq<ColumnView>)>,
    ids: Seq<i64>,
)
    ensures
        spec_rows_with_ids(a + b, ids) == spec_rows_with_ids(a, ids) + spec_rows_with_ids(b, ids),
    decreases b.len(),
{
    if b.len() == 0 {
        assert(a + b =~= a);
        assert(spec_rows_with_ids(a, ids) + spec_rows_with_ids(b, ids) =~= spec_rows_with_ids(
            a,
            ids,
        ));
    } else {
        assert((a + b).drop_last() =~= a + b.drop_last());
        lemma_rows_with_ids_concat(a, b.drop_last(), ids);
        assert((a + b).last() == b.last());
        if ids.contains(b.last().0) {
            assert((spec_rows_with_ids(a, ids) + spec_rows_with_ids(b.drop_last(), ids)).push(
                b.last(),
            ) =~= spec_rows_with_ids(a, ids) + spec_rows_with_ids(b.drop_last(), ids).push(
                b.last(),
            ));
        }
    }
}

/// The first position at or after `lo` whose value is at least `key`; the
/// length when every later value is smaller.
pub open spec fn spec_lower_bound(ids: Seq<i64>, lo: int, key: i64) -> int
    recommends
        0 <= lo <= ids.len(),
    decreases (if ids.len() - lo > 0 {
        ids.len() - lo
    } else {
        0
    }),
{
    if lo < 0 || lo >= ids.len() {
        lo
    } else if ids[lo] >= key {
        lo
    } else {
        spec_lower_bound(ids, lo + 1, key)
    }
}

/// The rows a pruned walk of the table tree at page `idx` keeps, given the
/// sorted rowids wanted: whole subtrees are skipped when no wanted rowid
/// can lie below them, and leaf rows are kept exactly when their rowid is
/// wanted.
pub open spec fn spec_ids_rows(pages: Seq<Page>, idx: int, ids: Seq<i64>, fuel: nat) -> Result<
    Seq<(i64, Seq<ColumnView>)>,
    DbError,
>
    decreases fuel, 0int, 0int,
{
    if !(0 <= idx < pages.len()) {
        Ok(Seq::empty())
    } else {
        let p = pages[idx];
        match p.btree_header.page_type {
            PageType::LeafTable => match spec_leaf_rows(p, 0) {
                Err(e) => Err(e),
                Ok(rows) => Ok(spec_rows_with_ids(rows, ids)),
            },
            PageType::InteriorTable => if fuel == 0 {
                Err(DbError::OutOfRangeRead)
            } else {
                spec_ids_interior(pages, idx, ids, 0, 0, (fuel - 1) as nat)
            },
            _ => Err(DbError::InvalidPageType),
        }
    }
}

/// The pruned walk below an interior table page from its `i`-th cell on,
/// with `lo` marking the first wanted rowid not yet ruled out: a cell's
/// left child is entered only when some wanted rowid lies below the cell's
/// rowid bound, and the right-most child only when wanted rowids remain.
pub open spec fn spec_ids_interior(
    pages: Seq<Page>,
    idx: int,
    ids: Seq<i64>,
    i: int,
    lo: int,
    fuel: nat,
) -> Result<Seq<(i64, Seq<ColumnView>)>, DbError>
    recommends
        0 <= idx < pages.len(),
    decreases
            fuel,
            (if pages[idx].cell_offsets@.len() - i > 0 {
                pages[idx].cell_offsets@.len() - i
            } else {
                0
            }),
            1int,
{
    let p = pages[idx];
    if i < 0 || i >= p.cell_offsets@.len() {
        if lo < ids.len() {
            match p.btree_header.right_most_pointer {
                Some(num) => spec_ids_rows(pages, num as int - 1, ids, fuel),
                None => Ok(Seq::empty()),
            }
        } else {
            Ok(Seq::empty())
        }
    } else {
        match spec_cell_at(p, i) {
            Err(e) => Err(e),
            Ok(c) => match c {
                CellView::InteriorTable { page_number_left_child, rowid } => {
                    let split = spec_lower_bound(ids, lo, rowid);
                    match (if split > lo {
                        spec_ids_rows(pages, page_number_left_child as int - 1, ids, fuel)
                    } else {
                        Ok(Seq::empty())
                    }) {
                        Err(e) => Err(e),
                        Ok(child) => match spec_ids_interior(pages, idx, ids, i + 1, split, fuel) {
                            Err(e) => Err(e),
                            Ok(rest) => Ok(child + rest),
                        },
                    }
                },
                _ => Err(DbError::InvalidPageType),
            },
        }
    }
}

/// A well-formed table tree at page `idx` whose rowids all lie in
/// `[lo, hi)`: every page referenced exists and decodes, leaves hold rowids
/// inside the range, and each interior cell's rowid bound separates its
/// left subtree's rowids from everything after it.
pub open spec fn spec_table_wf(pages: Seq<Page>, idx: int, lo: int, hi: int, fuel: nat) -> bool
    decreases fuel, 0int, 0int,
{
    &&& 0 <= idx < pages.len()
    &&& match pages[idx].btree_header.page_type {
        PageType::LeafTable => match spec_leaf_rows(pages[idx], 0) {
            Ok(rows) => forall|k: int| 0 <= k < rows.len() ==> lo <= (#[trigger] rows[k]).0 < hi,
            Err(_) => false,
        },
        PageType::InteriorTable => fuel > 0 && spec_interior_wf(
            pages,
            idx,
            0,
            lo,
            hi,
            (fuel - 1) as nat,
        ),
        _ => false,
    }
}

/// Well-formedness of an interior table page from its `i`-th cell on.
pub open spec fn spec_interior_wf(
    pages: Seq<Page>,
    idx: int,
    i: int,
    lo: int,
    hi: int,
    fuel: nat,
) -> bool
    recommends
        0 <= idx < pages.len(),
    decreases
            fuel,
            (if pages[idx].cell_offsets@.len() - i > 0 {
                pages[idx].cell_offsets@.len() - i
            } else {
                0
            }),
            1int,
{
    let p = pages[idx];
    if i < 0 || i >= p.cell_offsets@.len() {
        match p.btree_header.right_most_pointer {
            Some(num) => spec_table_wf(pages, num as int - 1, lo, hi, fuel),
            None => false,
        }
    } else {
        match spec_cell_at(p, i) {
            Ok(c) => match c {
                CellView::InteriorTable { page_number_left_child, rowid } => {
                    &&& lo <= rowid as int <= hi
                    &&& spec_table_wf(pages, page_number_left_child as int - 1, lo, rowid as int, fuel)
                    &&& spec_interior_wf(pages, idx, i + 1, rowid as int, hi, fuel)
                },
                _ => false,
            },
            Err(_) => false,
        }
    }
}

/// No row survives the restriction when no row's rowid is wanted.
proof fn lemma_rows_with_ids_absent(rows: Seq<(i64, Seq<ColumnView>)>, ids: Seq<i64>)
    requires
        forall|k: int| 0 <= k < rows.len() ==> !ids.contains((#[trigger] rows[k]).0),
    ensures
        spec_rows_with_ids(rows, ids) == Seq::<(i64, Seq<ColumnView>)>::empty(),
    decreases rows.len(),
{
    if rows.len() > 0 {
        assert(forall|k: int|
            0 <= k < rows.drop_last().len() ==> rows.drop_last()[k] == rows[k]);
        lemma_rows_with_ids_absent(rows.drop_last(), ids);
    }
}

/// Pruning correctness: on a well-formed table tree, for every strictly
/// sorted list of wanted rowids, the pruned walk returns exactly the rows
/// of the full unfiltered walk whose rowid is wanted.
pub proof fn lemma_pruned_scan_exact(
    pages: Seq<Page>,
    idx: int,
    ids: Seq<i64>,
    lo: int,
    hi: int,
    fuel: nat,
)
    requires
        spec_table_wf(pages, idx, lo, hi, fuel),
        sorted_strict(ids),
    ensures
        spec_table_rows(pages, idx, fuel) matches Ok(rows) && spec_ids_rows(pages, idx, ids, fuel)
            == Ok::<Seq<(i64, Seq<ColumnView>)>, DbError>(spec_rows_with_ids(rows, ids)) && (
        forall|m: int| 0 <= m < rows.len() ==> lo <= (#[trigger] rows[m]).0 < hi),
    decreases fuel, 0int, 0int,
{
    let p = pages[idx];
    match p.btree_header.page_type {
        PageType::LeafTable => {},
        PageType::InteriorTable => {
            lemma_pruned_interior(pages, idx, ids, 0, 0, lo, hi, (fuel - 1) as nat);
        },
        _ => {},
    }
}

proof fn lemma_pruned_interior(
    pages: Seq<Page>,
    idx: int,
    ids: Seq<i64>,
    i: int,
    lo_w: int,
    lo: int,
    hi: int,
    fuel: nat,
)
    requires
        0 <= idx < pages.len(),
        pages[idx].btree_header.page_type == PageType::InteriorTable,
        spec_interior_wf(pages, idx, i, lo, hi, fuel),
        sorted_strict(ids),
        0 <= lo_w <= ids.len(),
        forall|m: int| 0 <= m < lo_w ==> ids[m] < lo,
    ensures
        spec_interior_rows(pages, idx, i, fuel) matches Ok(rows) && spec_ids_interior(
            pages,
            idx,
            ids,
            i,
            lo_w,
            fuel,
        ) == Ok::<Seq<(i64, Seq<ColumnView>)>, DbError>(spec_rows_with_ids(rows, ids)) && (
        forall|m: int| 0 <= m < rows.len() ==> lo <= (#[trigger] rows[m]).0 < hi),
    decreases
            fuel,
            (if pages[idx].cell_offsets@.len() - i > 0 {
                pages[idx].cell_offsets@.len() - i
            } else {
                0
            }),
            1int,
{
    let p = pages[idx];
    if i < 0 || i >= p.cell_offsets@.len() {
        let num = p.btree_header.right_most_pointer->0;
        lemma_pruned_scan_exact(pages, num as int - 1, ids, lo, hi, fuel);
        let child_rows = spec_table_rows(pages, num as int - 1, fuel)->Ok_0;
        if lo_w < ids.len() {
        } else {
            assert forall|m: int|
                0 <= m < child_rows.len() implies !ids.contains((#[trigger] child_rows[m]).0) by {
                if ids.contains(child_rows[m].0) {
                    let q = choose|q: int| 0 <= q < ids.len() && ids[q] == child_rows[m].0;
                    assert(ids[q] < lo);
                }
            }
            lemma_rows_with_ids_absent(child_rows, ids);
        }
    } else {
        match spec_cell_at(p, i) {
            Ok(c) => match c {
                CellView::InteriorTable { page_number_left_child: num, rowid: k } => {
                    let split = spec_lower_bound(ids, lo_w, k);
                    lemma_lower_bound_char(ids, lo_w, k);
                    lemma_pruned_scan_exact(pages, num as int - 1, ids, lo, k as int, fuel);
                    let child_rows = spec_table_rows(pages, num as int - 1, fuel)->Ok_0;
                    assert forall|m: int| 0 <= m < split implies ids[m] < k by {
                        if m < lo_w {
                            assert(ids[m] < lo);
                        }
                    }
                    lemma_pruned_interior(pages, idx, ids, i + 1, split, k as int, hi, fuel);
                    let rest_rows = spec_interior_rows(pages, idx, i + 1, fuel)->Ok_0;
                    lemma_rows_with_ids_concat(child_rows, rest_rows, ids);
                    if split > lo_w {
                    } else {
                        // no wanted rowid lies below this cell's bound, and
                        // the left subtree holds nothing else
                        assert forall|m: int|
                            0 <= m < child_rows.len() implies !ids.contains(
                            (#[trigger] child_rows[m]).0,
                        ) by {
                            if ids.contains(child_rows[m].0) {
                                let q = choose|q: int|
                                    0 <= q < ids.len() && ids[q] == child_rows[m].0;
                                if q < lo_w {
                                    assert(ids[q] < lo);
                                } else {
                                    assert(ids[lo_w] >= k);
                                    if q > lo_w {
                                        assert(ids[lo_w] < ids[q]);
                                    }
                                }
                            }
                        }
                        lemma_rows_with_ids_absent(child_rows, ids);
                        assert(Seq::<(i64, Seq<ColumnView>)>::empty() + spec_rows_with_ids(
                            rest_rows,
                            ids,
                        ) =~= spec_rows_with_ids(rest_rows, ids));
                    }
                    assert forall|m: int|
                        0 <= m < (child_rows + rest_rows).len() implies lo <= (#[trigger] (
                    child_rows + rest_rows)[m]).0 < hi by {
                        if m < child_rows.len() {
                            assert((child_rows + rest_rows)[m] == child_rows[m]);
                        } else {
                            assert((child_rows + rest_rows)[m] == rest_rows[m - child_rows.len()]);
                        }
                    }
                },
                _ => {},
            },
            Err(_) => {},
        }
    }
}

/// How two byte strings compare, lexicographically, a shorter prefix first.
#[derive(Debug, Clone, Copy, PartialEq, Eq, Structural)]
pub enum KeyOrder {
    Less,
    Equal,
    Greater,
}

/// Lexicographic byte-string order.
pub open spec fn spec_byte_cmp(a: Seq<u8>, b: Seq<u8>) -> KeyOrder
    decreases a.len(),
{
    if a.len() == 0 && b.len() == 0 {
        KeyOrder::Equal
    } else if a.len() == 0 {
        KeyOrder::Less
    } else if b.len() == 0 {
        KeyOrder::Greater
    } else if a[0] < b[0] {
        KeyOrder::Less
    } else if a[0] > b[0] {
        KeyOrder::Greater
    } else {
        spec_byte_cmp(a.skip(1), b.skip(1))
    }
}

/// Byte strings compare equal exactly when they are equal.
pub proof fn lemma_byte_cmp_eq(a: Seq<u8>, b: Seq<u8>)
    ensures
        (spec_byte_cmp(a, b) == KeyOrder::Equal) <==> a == b,
    decreases a.len(),
{
    if a.len() == 0 && b.len() == 0 {
        assert(a =~= b);
    } else if a.len() > 0 && b.len() > 0 && a[0] == b[0] {
        lemma_byte_cmp_eq(a.skip(1), b.skip(1));
        if spec_byte_cmp(a, b) == KeyOrder::Equal {
            assert forall|i: int| 0 <= i < a.len() implies a[i] == b[i] by {
                if i > 0 {
                    assert(a.skip(1)[i - 1] == b.skip(1)[i - 1]);
                }
            }
            assert(a =~= b);
        } else {
            if a == b {
                assert(a.skip(1) =~= b.skip(1));
            }
        }
    } else {
        if a == b {
            assert(a.len() == b.len());
            if a.len() > 0 {
                assert(a[0] == b[0]);
            }
        }
    }
}

/// The key bytes of an index entry: the UTF-8 encoding of its leading text
/// column, when the entry has one.
pub open spec fn spec_entry_key(cols: Seq<ColumnView>) -> Option<Seq<u8>> {
    if cols.len() >= 1 && (cols[0].data matches crate::column::ValueView::String(t)) {
        Some(
            vstd::utf8::encode_utf8(
                match cols[0].data {
                    crate::column::ValueView::String(t) => t,
                    _ => Seq::empty(),
                },
            ),
        )
    } else {
        None
    }
}

/// The table rowid an index entry carries in its second column.
pub open spec fn spec_entry_rowid(cols: Seq<ColumnView>) -> Result<i64, DbError> {
    if cols.len() < 2 {
        Err(DbError::OutOfRangeRead)
    } else {
        match crate::sql::spec_int_value(cols[1].data) {
            Some(id) => Ok(id),
            None => Err(DbError::InvalidSerialType),
        }
    }
}

/// The table rowids the index tree at page `idx` yields for `key`: on a
/// leaf, every entry equal to the key; on an interior page, the cells are
/// scanned in order, a strictly greater separator stops the scan into its
/// left child alone, an equal separator contributes its own rowid and its
/// left child and lets the scan go on, and the right-most child is entered
/// only when no separator exceeded the key.
pub open spec fn spec_index_rowids(pages: Seq<Page>, idx: int, key: Seq<u8>, fuel: nat) -> Result<
    Seq<i64>,
    DbError,
>
    decreases fuel, 0int, 0int,
{
    if !(0 <= idx < pages.len()) {
        Ok(Seq::empty())
    } else {
        let p = pages[idx];
        match p.btree_header.page_type {
            PageType::LeafIndex => spec_index_leaf(p, 0, key),
            PageType::InteriorIndex => if fuel == 0 {
                Err(DbError::OutOfRangeRead)
            } else {
                spec_index_interior(pages, idx, key, 0, (fuel - 1) as nat)
            },
            _ => Err(DbError::InvalidPageType),
        }
    }
}

/// The matches of an index leaf page from its `i`-th cell on.
pub open spec fn spec_index_leaf(p: Page, i: int, key: Seq<u8>) -> Result<Seq<i64>, DbError>
    decreases (if p.cell_offsets@.len() - i > 0 {
        p.cell_offsets@.len() - i
    } else {
        0
    }),
{
    if i < 0 || i >= p.cell_offsets@.len() {
        Ok(Seq::empty())
    } else {
        match spec_cell_at(p, i) {
            Err(e) => Err(e),
            Ok(c) => match c {
                CellView::LeafIndex { record, .. } => match spec_entry_key(record) {
                    Some(kb) => if kb == key {
                        match spec_entry_rowid(record) {
                            Err(e) => Err(e),
                            Ok(id) => match spec_index_leaf(p, i + 1, key) {
                                Err(e) => Err(e),
                                Ok(rest) => Ok(seq![id] + rest),
                            },
                        }
                    } else {
                        spec_index_leaf(p, i + 1, key)
                    },
                    None => spec_index_leaf(p, i + 1, key),
                },
                _ => Err(DbError::InvalidPageType),
            },
        }
    }
}

/// The matches below an interior index page from its `i`-th cell on.
pub open spec fn spec_index_interior(
    pages: Seq<Page>,
    idx: int,
    key: Seq<u8>,
    i: int,
    fuel: nat,
) -> Result<Seq<i64>, DbError>
    recommends
        0 <= idx < pages.len(),
    decreases
            fuel,
            (if pages[idx].cell_offsets@.len() - i > 0 {
                pages[idx].cell_offsets@.len() - i
            } else {
                0
            }),
            1int,
{
    let p = pages[idx];
    if i < 0 || i >= p.cell_offsets@.len() {
        match p.btree_header.right_most_pointer {
            Some(num) => spec_index_rowids(pages, num as int - 1, key, fuel),
            None => Ok(Seq::empty()),
        }
    } else {
        match spec_cell_at(p, i) {
            Err(e) => Err(e),
            Ok(c) => match c {
                CellView::InteriorIndex { page_number_left_child, record, .. } => {
                    match spec_entry_key(record) {
                        None => spec_index_interior(pages, idx, key, i + 1, fuel),
                        Some(kb) => match spec_byte_cmp(key, kb) {
                            KeyOrder::Less => spec_index_rowids(
                                pages,
                                page_number_left_child as int - 1,
                                key,
                                fuel,
                            ),
                            KeyOrder::Greater => spec_index_interior(pages, idx, key, i + 1, fuel),
                            KeyOrder::Equal => match spec_entry_rowid(record) {
                                Err(e) => Err(e),
                                Ok(id) => match spec_index_rowids(
                                    pages,
                                    page_number_left_child as int - 1,
                                    key,
                                    fuel,
                                ) {
                                    Err(e) => Err(e),
                                    Ok(below) => match spec_index_interior(
                                        pages,
                                        idx,
                                        key,
                                        i + 1,
                                        fuel,
                                    ) {
                                        Err(e) => Err(e),
                                        Ok(rest) => Ok(seq![id] + below + rest),
                                    },
                                },
                            },
                        },
                    }
                },
                _ => Err(DbError::InvalidPageType),
            },
        }
    }
}

/// `a` precedes `b` or equals it, in lexicographic byte order.
pub open spec fn key_le(a: Seq<u8>, b: Seq<u8>) -> bool {
    spec_byte_cmp(a, b) != KeyOrder::Greater
}

/// A lower bound admits the key; `None` admits everything.
pub open spec fn bound_le(lo: Option<Seq<u8>>, k: Seq<u8>) -> bool {
    match lo {
        None => true,
        Some(l) => key_le(l, k),
    }
}

/// An upper bound admits the key; `None` admits everything.
pub open spec fn bound_ge(hi: Option<Seq<u8>>, k: Seq<u8>) -> bool {
    match hi {
        None => true,
        Some(h) => key_le(k, h),
    }
}

/// Swapping the operands swaps `Less` and `Greater`.
pub proof fn lemma_byte_cmp_flip(a: Seq<u8>, b: Seq<u8>)
    ensures
        (spec_byte_cmp(a, b) == KeyOrder::Less) <==> (spec_byte_cmp(b, a) == KeyOrder::Greater),
    decreases a.len(),
{
    if a.len() > 0 && b.len() > 0 && a[0] == b[0] {
        lemma_byte_cmp_flip(a.skip(1), b.skip(1));
    }
}

/// Lexicographic order is transitive.
pub proof fn lemma_key_le_trans(a: Seq<u8>, b: Seq<u8>, c: Seq<u8>)
    requires
        key_le(a, b),
        key_le(b, c),
    ensures
        key_le(a, c),
    decreases a.len(),
{
    if a.len() > 0 {
        assert(b.len() > 0);
        assert(c.len() > 0);
        if a[0] == b[0] && b[0] == c[0] {
            lemma_key_le_trans(a.skip(1), b.skip(1), c.skip(1));
        }
    }
}

/// All the (key, rowid) entries of an index leaf page from its `i`-th cell
/// on, skipping anything that is not a well-shaped entry.
pub open spec fn spec_leaf_entries(p: Page, i: int) -> Seq<(Seq<u8>, i64)>
    decreases (if p.cell_offsets@.len() - i > 0 {
        p.cell_offsets@.len() - i
    } else {
        0
    }),
{
    if i < 0 || i >= p.cell_offsets@.len() {
        Seq::empty()
    } else {
        let rest = spec_leaf_entries(p, i + 1);
        match spec_cell_at(p, i) {
            Ok(c) => match c {
                CellView::LeafIndex { record, .. } => match (
                    spec_entry_key(record),
                    spec_entry_rowid(record),
                ) {
                    (Some(kb), Ok(id)) => seq![(kb, id)] + rest,
                    _ => rest,
                },
                _ => rest,
            },
            _ => rest,
        }
    }
}

/// All the entries of the index tree at page `idx`, leaves and interior
/// separators alike, in key order for well-formed trees.
pub open spec fn spec_tree_entries(pages: Seq<Page>, idx: int, fuel: nat) -> Seq<(Seq<u8>, i64)>
    decreases fuel, 0int, 0int,
{
    if !(0 <= idx < pages.len()) {
        Seq::empty()
    } else {
        let p = pages[idx];
        match p.btree_header.page_type {
            PageType::LeafIndex => spec_leaf_entries(p, 0),
            PageType::InteriorIndex => if fuel == 0 {
                Seq::empty()
            } else {
                spec_interior_entries(pages, idx, 0, (fuel - 1) as nat)
            },
            _ => Seq::empty(),
        }
    }
}

/// The entries below an interior index page from its `i`-th cell on.
pub open spec fn spec_interior_entries(pages: Seq<Page>, idx: int, i: int, fuel: nat) -> Seq<
    (Seq<u8>, i64),
>
    recommends
        0 <= idx < pages.len(),
    decreases
            fuel,
            (if pages[idx].cell_offsets@.len() - i > 0 {
                pages[idx].cell_offsets@.len() - i
            } else {
                0
            }),
            1int,
{
    let p = pages[idx];
    if i < 0 || i >= p.cell_offsets@.len() {
        match p.btree_header.right_most_pointer {
            Some(num) => spec_tree_entries(pages, num as int - 1, fuel),
            None => Seq::empty(),
        }
    } else {
        let rest = spec_interior_entries(pages, idx, i + 1, fuel);
        match spec_cell_at(p, i) {
            Ok(c) => match c {
                CellView::InteriorIndex { page_number_left_child, record, .. } => {
                    let below = spec_tree_entries(pages, page_number_left_child as int - 1, fuel);
                    match (spec_entry_key(record), spec_entry_rowid(record)) {
                        (Some(kb), Ok(id)) => below + seq![(kb, id)] + rest,
                        _ => below + rest,
                    }
                },
                _ => rest,
            },
            _ => rest,
        }
    }
}

/// The rowids of the entries whose key equals `key`, in entry order.
pub open spec fn spec_matching_ids(entries: Seq<(Seq<u8>, i64)>, key: Seq<u8>) -> Seq<i64>
    decreases entries.len(),
{
    if entries.len() == 0 {
        Seq::empty()
    } else {
        let rest = spec_matching_ids(entries.drop_last(), key);
        if entries.last().0 == key {
            rest.push(entries.last().1)
        } else {
            rest
        }
    }
}

/// Selecting matches distributes over concatenation.
pub proof fn lemma_matching_ids_concat(a: Seq<(Seq<u8>, i64)>, b: Seq<(Seq<u8>, i64)>, key: Seq<u8>)
    ensures
        spec_matching_ids(a + b, key) == spec_matching_ids(a, key) + spec_matching_ids(b, key),
    decreases b.len(),
{
    if b.len() == 0 {
        assert(a + b =~= a);
        assert(spec_matching_ids(a, key) + spec_matching_ids(b, key) =~= spec_matching_ids(
            a,
            key,
        ));
    } else {
        assert((a + b).drop_last() =~= a + b.drop_last());
        lemma_matching_ids_concat(a, b.drop_last(), key);
        assert((a + b).last() == b.last());
        if b.last().0 == key {
            assert((spec_matching_ids(a, key) + spec_matching_ids(b.drop_last(), key)).push(
                b.last().1,
            ) =~= spec_matching_ids(a, key) + spec_matching_ids(b.drop_last(), key).push(
                b.last().1,
            ));
        }
    }
}

/// No rowid is selected when no entry's key equals the wanted key.
proof fn lemma_matching_ids_absent(entries: Seq<(Seq<u8>, i64)>, key: Seq<u8>)
    requires
        forall|k: int| 0 <= k < entries.len() ==> (#[trigger] entries[k]).0 != key,
    ensures
        spec_matching_ids(entries, key) == Seq::<i64>::empty(),
    decreases entries.len(),
{
    if entries.len() > 0 {
        assert(forall|k: int|
            0 <= k < entries.drop_last().len() ==> entries.drop_last()[k] == entries[k]);
        lemma_matching_ids_absent(entries.drop_last(), key);
    }
}

/// A well-formed index tree at page `idx` whose entry keys all lie between
/// the bounds: every page exists and decodes, every entry has a text key
/// and an integer rowid, and each interior separator splits its left
/// subtree's keys from everything after it, duplicates allowed on either
/// side.
pub open spec fn spec_index_wf(
    pages: Seq<Page>,
    idx: int,
    lo: Option<Seq<u8>>,
    hi: Option<Seq<u8>>,
    fuel: nat,
) -> bool
    decreases fuel, 0int, 0int,
{
    &&& 0 <= idx < pages.len()
    &&& match pages[idx].btree_header.page_type {
        PageType::LeafIndex => spec_index_leaf_wf(pages[idx], 0, lo, hi),
        PageType::InteriorIndex => fuel > 0 && spec_index_interior_wf(
            pages,
            idx,
            0,
            lo,
            hi,
            (fuel - 1) as nat,
        ),
        _ => false,
    }
}

/// Well-formedness of an index leaf page from its `i`-th cell on.
pub open spec fn spec_index_leaf_wf(p: Page, i: int, lo: Option<Seq<u8>>, hi: Option<Seq<u8>>) -> bool
    decreases (if p.cell_offsets@.len() - i > 0 {
        p.cell_offsets@.len() - i
    } else {
        0
    }),
{
    if i < 0 || i >= p.cell_offsets@.len() {
        true
    } else {
        match spec_cell_at(p, i) {
            Ok(c) => match c {
                CellView::LeafIndex { record, .. } => match spec_entry_key(record) {
                    Some(kb) => {
                        &&& bound_le(lo, kb)
                        &&& bound_ge(hi, kb)
                        &&& spec_entry_rowid(record) is Ok
                        &&& spec_index_leaf_wf(p, i + 1, lo, hi)
                    },
                    None => false,
                },
                _ => false,
            },
            _ => false,
        }
    }
}

/// Well-formedness of an interior index page from its `i`-th cell on.
pub open spec fn spec_index_interior_wf(
    pages: Seq<Page>,
    idx: int,
    i: int,
    lo: Option<Seq<u8>>,
    hi: Option<Seq<u8>>,
    fuel: nat,
) -> bool
    recommends
        0 <= idx < pages.len(),
    decreases
            fuel,
            (if pages[idx].cell_offsets@.len() - i > 0 {
                pages[idx].cell_offsets@.len() - i
            } else {
                0
            }),
            1int,
{
    let p = pages[idx];
    if i < 0 || i >= p.cell_offsets@.len() {
        match p.btree_header.right_most_pointer {
            Some(num) => spec_index_wf(pages, num as int - 1, lo, hi, fuel),
            None => false,
        }
    } else {
        match spec_cell_at(p, i) {
            Ok(c) => match c {
                CellView::InteriorIndex { page_number_left_child, record, .. } => {
                    match spec_entry_key(record) {
                        Some(kb) => {
                            &&& bound_le(lo, kb)
                            &&& bound_ge(hi, kb)
                            &&& spec_entry_rowid(record) is Ok
                            &&& spec_index_wf(
                                pages,
                                page_number_left_child as int - 1,
                                lo,
                                Some(kb),
                                fuel,
                            )
                            &&& spec_index_interior_wf(pages, idx, i + 1, Some(kb), hi, fuel)
                        },
                        None => false,
                    }
                },
                _ => false,
            },
            _ => false,
        }
    }
}

proof fn lemma_leaf_entries_bounded(p: Page, i: int, lo: Option<Seq<u8>>, hi: Option<Seq<u8>>)
    requires
        spec_index_leaf_wf(p, i, lo, hi),
    ensures
        forall|k: int|
            0 <= k < spec_leaf_entries(p, i).len() ==> bound_le(
                lo,
                (#[trigger] spec_leaf_entries(p, i)[k]).0,
            ) && bound_ge(hi, spec_leaf_entries(p, i)[k].0),
    decreases (if p.cell_offsets@.len() - i > 0 {
        p.cell_offsets@.len() - i
    } else {
        0
    }),
{
    if 0 <= i < p.cell_offsets@.len() {
        lemma_leaf_entries_bounded(p, i + 1, lo, hi);
        let es = spec_leaf_entries(p, i);
        let rest = spec_leaf_entries(p, i + 1);
        assert forall|k: int|
            0 <= k < es.len() implies bound_le(lo, (#[trigger] es[k]).0) && bound_ge(
            hi,
            es[k].0,
        ) by {
            if es.len() == rest.len() + 1 {
                if k > 0 {
                    assert(es[k] == rest[k - 1]);
                }
            } else {
                assert(es[k] == rest[k]);
            }
        }
    }
}

proof fn lemma_entries_bounded(
    pages: Seq<Page>,
    idx: int,
    lo: Option<Seq<u8>>,
    hi: Option<Seq<u8>>,
    fuel: nat,
)
    requires
        spec_index_wf(pages, idx, lo, hi, fuel),
    ensures
        forall|k: int|
            0 <= k < spec_tree_entries(pages, idx, fuel).len() ==> bound_le(
                lo,
                (#[trigger] spec_tree_entries(pages, idx, fuel)[k]).0,
            ) && bound_ge(hi, spec_tree_entries(pages, idx, fuel)[k].0),
    decreases fuel, 0int, 0int,
{
    let p = pages[idx];
    match p.btree_header.page_type {
        PageType::LeafIndex => {
            lemma_leaf_entries_bounded(p, 0, lo, hi);
            assert(spec_tree_entries(pages, idx, fuel) == spec_leaf_entries(p, 0));
        },
        PageType::InteriorIndex => {
            lemma_interior_entries_bounded(pages, idx, 0, lo, hi, (fuel - 1) as nat);
            assert(spec_tree_entries(pages, idx, fuel) == spec_interior_entries(
                pages,
                idx,
                0,
                (fuel - 1) as nat,
            ));
        },
        _ => {},
    }
}

proof fn lemma_interior_entries_bounded(
    pages: Seq<Page>,
    idx: int,
    i: int,
    lo: Option<Seq<u8>>,
    hi: Option<Seq<u8>>,
    fuel: nat,
)
    requires
        0 <= idx < pages.len(),
        spec_index_interior_wf(pages, idx, i, lo, hi, fuel),
    ensures
        forall|k: int|
            0 <= k < spec_interior_entries(pages, idx, i, fuel).len() ==> bound_le(
                lo,
                (#[trigger] spec_interior_entries(pages, idx, i, fuel)[k]).0,
            ) && bound_ge(hi, spec_interior_entries(pages, idx, i, fuel)[k].0),
    decreases
            fuel,
            (if pages[idx].cell_offsets@.len() - i > 0 {
                pages[idx].cell_offsets@.len() - i
            } else {
                0
            }),
            1int,
{
    let p = pages[idx];
    if i < 0 || i >= p.cell_offsets@.len() {
        let num = p.btree_header.right_most_pointer->0;
        lemma_entries_bounded(pages, num as int - 1, lo, hi, fuel);
        assert(spec_interior_entries(pages, idx, i, fuel) == spec_tree_entries(
            pages,
            num as int - 1,
            fuel,
        ));
    } else {
        match spec_cell_at(p, i) {
            Ok(c) => match c {
                CellView::InteriorIndex { page_number_left_child: num, record, .. } => {
                    let kb = spec_entry_key(record)->0;
                    lemma_entries_bounded(pages, num as int - 1, lo, Some(kb), fuel);
                    lemma_interior_entries_bounded(pages, idx, i + 1, Some(kb), hi, fuel);
                    let below = spec_tree_entries(pages, num as int - 1, fuel);
                    let rest = spec_interior_entries(pages, idx, i + 1, fuel);
                    let es = spec_interior_entries(pages, idx, i, fuel);
                    assert(es == below + seq![(kb, spec_entry_rowid(record)->Ok_0)] + rest);
                    assert forall|k: int|
                        0 <= k < es.len() implies bound_le(lo, (#[trigger] es[k]).0) && bound_ge(
                        hi,
                        es[k].0,
                    ) by {
                        if k < below.len() {
                            assert(es[k] == below[k]);
                            // a key below the separator also sits below the
                            // page's own upper bound
                            if hi is Some {
                                lemma_key_le_trans(below[k].0, kb, hi->0);
                            }
                        } else if k == below.len() {
                            assert(es[k].0 == kb);
                        } else {
                            assert(es[k] == rest[k - below.len() - 1]);
                            if lo is Some {
                                lemma_key_le_trans(lo->0, kb, rest[k - below.len() - 1].0);
                            }
                        }
                    }
                },
                _ => {},
            },
            _ => {},
        }
    }
}

proof fn lemma_index_leaf_exact(p: Page, i: int, key: Seq<u8>, lo: Option<Seq<u8>>, hi: Option<
    Seq<u8>,
>)
    requires
        spec_index_leaf_wf(p, i, lo, hi),
    ensures
        spec_index_leaf(p, i, key) == Ok::<Seq<i64>, DbError>(
            spec_matching_ids(spec_leaf_entries(p, i), key),
        ),
    decreases (if p.cell_offsets@.len() - i > 0 {
        p.cell_offsets@.len() - i
    } else {
        0
    }),
{
    if i < 0 || i >= p.cell_offsets@.len() {
        assert(spec_matching_ids(Seq::<(Seq<u8>, i64)>::empty(), key) =~= Seq::<i64>::empty());
    } else {
        lemma_index_leaf_exact(p, i + 1, key, lo, hi);
        match spec_cell_at(p, i) {
            Ok(c) => match c {
                CellView::LeafIndex { record, .. } => {
                    let kb = spec_entry_key(record)->0;
                    let id = spec_entry_rowid(record)->Ok_0;
                    let rest = spec_leaf_entries(p, i + 1);
                    lemma_matching_ids_concat(seq![(kb, id)], rest, key);
                    assert(seq![(kb, id)].drop_last() =~= Seq::<(Seq<u8>, i64)>::empty());
                    assert(spec_matching_ids(Seq::<(Seq<u8>, i64)>::empty(), key) =~= Seq::<
                        i64,
                    >::empty());
                    assert(seq![(kb, id)].last() == (kb, id));
                    if kb == key {
                        assert(spec_matching_ids(seq![(kb, id)], key) =~= seq![id]);
                        assert(seq![id] + spec_matching_ids(rest, key) =~= Seq::<
                            i64,
                        >::empty().push(id) + spec_matching_ids(rest, key));
                    } else {
                        assert(spec_matching_ids(seq![(kb, id)], key) =~= Seq::<i64>::empty());
                        assert(Seq::<i64>::empty() + spec_matching_ids(rest, key)
                            =~= spec_matching_ids(rest, key));
                    }
                },
                _ => {},
            },
            _ => {},
        }
    }
}

/// Index-search correctness: on a well-formed index tree, the search for
/// any key finds exactly the rowids of the entries whose key equals it, as
/// a brute-force scan of every entry would.
pub proof fn lemma_index_search_exact(
    pages: Seq<Page>,
    idx: int,
    key: Seq<u8>,
    lo: Option<Seq<u8>>,
    hi: Option<Seq<u8>>,
    fuel: nat,
)
    requires
        spec_index_wf(pages, idx, lo, hi, fuel),
    ensures
        spec_index_rowids(pages, idx, key, fuel) matches Ok(found) && idset(found) == idset(
            spec_matching_ids(spec_tree_entries(pages, idx, fuel), key),
        ),
    decreases fuel, 0int, 0int,
{
    let p = pages[idx];
    match p.btree_header.page_type {
        PageType::LeafIndex => {
            lemma_index_leaf_exact(p, 0, key, lo, hi);
        },
        PageType::InteriorIndex => {
            lemma_index_search_interior(pages, idx, key, 0, lo, hi, (fuel - 1) as nat);
        },
        _ => {},
    }
}

proof fn lemma_index_search_interior(
    pages: Seq<Page>,
    idx: int,
    key: Seq<u8>,
    i: int,
    lo: Option<Seq<u8>>,
    hi: Option<Seq<u8>>,
    fuel: nat,
)
    requires
        0 <= idx < pages.len(),
        spec_index_interior_wf(pages, idx, i, lo, hi, fuel),
    ensures
        spec_index_interior(pages, idx, key, i, fuel) matches Ok(found) && idset(found) == idset(
            spec_matching_ids(spec_interior_entries(pages, idx, i, fuel), key),
        ),
    decreases
            fuel,
            (if pages[idx].cell_offsets@.len() - i > 0 {
                pages[idx].cell_offsets@.len() - i
            } else {
                0
            }),
            1int,
{
    let p = pages[idx];
    if i < 0 || i >= p.cell_offsets@.len() {
        let num = p.btree_header.right_most_pointer->0;
        lemma_index_search_exact(pages, num as int - 1, key, lo, hi, fuel);
    } else {
        match spec_cell_at(p, i) {
            Ok(c) => match c {
                CellView::InteriorIndex { page_number_left_child: num, record, .. } => {
                    let kb = spec_entry_key(record)->0;
                    let id = spec_entry_rowid(record)->Ok_0;
                    let below_e = spec_tree_entries(pages, num as int - 1, fuel);
                    let rest_e = spec_interior_entries(pages, idx, i + 1, fuel);
                    let own: Seq<(Seq<u8>, i64)> = seq![(kb, id)];
                    assert(spec_interior_entries(pages, idx, i, fuel) == below_e + own + rest_e);
                    lemma_matching_ids_concat(below_e + own, rest_e, key);
                    lemma_matching_ids_concat(below_e, own, key);
                    assert(own.drop_last() =~= Seq::<(Seq<u8>, i64)>::empty());
                    assert(spec_matching_ids(Seq::<(Seq<u8>, i64)>::empty(), key) =~= Seq::<
                        i64,
                    >::empty());
                    assert(own.last() == (kb, id));
                    lemma_byte_cmp_eq(key, kb);
                    match spec_byte_cmp(key, kb) {
                        KeyOrder::Less => {
                            lemma_index_search_exact(pages, num as int - 1, key, lo, Some(kb), fuel);
                            // nothing at or after this separator can match
                            assert(spec_matching_ids(own, key) =~= Seq::<i64>::empty());
                            lemma_interior_entries_bounded(pages, idx, i + 1, Some(kb), hi, fuel);
                            assert forall|k: int|
                                0 <= k < rest_e.len() implies (#[trigger] rest_e[k]).0 != key by {
                                if rest_e[k].0 == key {
                                    assert(key_le(kb, key));
                                    lemma_byte_cmp_flip(key, kb);
                                }
                            }
                            lemma_matching_ids_absent(rest_e, key);
                            let found = spec_index_rowids(pages, num as int - 1, key, fuel)->Ok_0;
                            assert(spec_matching_ids(below_e, key) + Seq::<i64>::empty() + Seq::<
                                i64,
                            >::empty() =~= spec_matching_ids(below_e, key));
                        },
                        KeyOrder::Greater => {
                            lemma_index_search_interior(pages, idx, key, i + 1, Some(kb), hi, fuel);
                            assert(spec_matching_ids(own, key) =~= Seq::<i64>::empty());
                            // nothing below this separator can match either
                            lemma_entries_bounded(pages, num as int - 1, lo, Some(kb), fuel);
                            assert forall|k: int|
                                0 <= k < below_e.len() implies (#[trigger] below_e[k]).0 != key by {
                                if below_e[k].0 == key {
                                    assert(key_le(key, kb));
                                }
                            }
                            lemma_matching_ids_absent(below_e, key);
                            assert(Seq::<i64>::empty() + Seq::<i64>::empty() + spec_matching_ids(
                                rest_e,
                                key,
                            ) =~= spec_matching_ids(rest_e, key));
                        },
                        KeyOrder::Equal => {
                            lemma_index_search_exact(pages, num as int - 1, key, lo, Some(kb), fuel);
                            lemma_index_search_interior(pages, idx, key, i + 1, Some(kb), hi, fuel);
                            let below_f = spec_index_rowids(pages, num as int - 1, key, fuel)->Ok_0;
                            let rest_f = spec_index_interior(pages, idx, key, i + 1, fuel)->Ok_0;
                            assert(spec_matching_ids(own, key) =~= seq![id]);
                            lemma_idset_concat(seq![id] + below_f, rest_f);
                            lemma_idset_concat(seq![id], below_f);
                            lemma_idset_concat(
                                spec_matching_ids(below_e, key) + seq![id],
                                spec_matching_ids(rest_e, key),
                            );
                            lemma_idset_concat(spec_matching_ids(below_e, key), seq![id]);
                            assert((seq![id] + below_f) + rest_f =~= seq![id] + below_f + rest_f);
                            assert((spec_matching_ids(below_e, key) + seq![id])
                                + spec_matching_ids(rest_e, key) =~= spec_matching_ids(
                                below_e,
                                key,
                            ) + own.subrange(0, 1).map_values(|e: (Seq<u8>, i64)| e.1)
                                + spec_matching_ids(rest_e, key)) by {
                                assert(own.subrange(0, 1) =~= own);
                                assert(own.map_values(|e: (Seq<u8>, i64)| e.1) =~= seq![id]);
                            }
                            assert(idset(seq![id] + below_f + rest_f) =~= idset(
                                spec_matching_ids(below_e + own + rest_e, key),
                            ));
                        },
                    }
                },
                _ => {},
            },
            _ => {},
        }
    }
}

} // verus!
