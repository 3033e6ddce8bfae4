//! The whole database: the decoded file header and every page, read once
//! from the file's bytes and immutable afterwards.
use vstd::prelude::*;

use crate::cell::Cell;
use crate::column::ColumnView;
use crate::error::DbError;
use crate::page::{Page, PageType};
use crate::record::{be_bytes, lemma_be_bytes_bound, lemma_pow256_unfold, read_be, Record};
use crate::sql::{
    apply_row, fields_view, int_column_value, pred_view, spec_pred_holds, spec_project_all_ok,
    spec_projected_texts, texts, texts_nodup, Sql,
};
use crate::text::string_from_utf8;
use crate::tree::{
    idset, lemma_byte_cmp_eq, lemma_idset_concat, lemma_lower_bound_char,
    lemma_rows_with_ids_concat, sorted_strict, spec_byte_cmp, spec_entry_rowid, spec_ids_interior,
    spec_ids_rows, spec_index_interior, spec_index_leaf, spec_index_rowids, spec_interior_rows,
    spec_leaf_rows, spec_lower_bound, spec_rows_with_ids, spec_table_rows, KeyOrder,
};
use vstd::string::StringExecFns;

verus! {

/// The views of collected rows.
pub open spec fn rows_view(v: Seq<(i64, Record)>) -> Seq<(i64, Seq<ColumnView>)> {
    v.map_values(|r: (i64, Record)| (r.0, r.1@))
}

/// The decoded file header: the 16-byte magic text and the page size read
/// from byte offset 16.
#[derive(Debug, Clone, PartialEq, Eq)]
pub struct DbHeader {
    pub header_string: String,
    pub page_size: usize,
}

impl DbHeader {
    /// Decode the file header fields from the header bytes.  Fails exactly
    /// when the magic area holds invalid UTF-8.
    pub fn new(header: &[u8]) -> (r: Result<DbHeader, DbError>)
        requires
            header@.len() >= 18,
        ensures
            match r {
                Ok(h) => {
                    &&& vstd::utf8::valid_utf8(header@.subrange(0, 16))
                    &&& h.header_string@ == vstd::utf8::decode_utf8(header@.subrange(0, 16))
                    &&& h.page_size == be_bytes(header@, 16, 2)
                },
                Err(e) => {
                    &&& e == DbError::Utf8DecodeError
                    &&& !vstd::utf8::valid_utf8(header@.subrange(0, 16))
                },
            },
    {
        let magic = vstd::slice::slice_subrange(header, 0, 16);
        let header_string = match string_from_utf8(vstd::slice::slice_to_vec(magic)) {
            Some(s) => s,
            None => {
                return Err(DbError::Utf8DecodeError);
            },
        };
        proof {
            lemma_pow256_unfold();
            lemma_be_bytes_bound(header@, 16, 2);
        }
        let page_size = read_be(header, 16, 2) as usize;
        Ok(DbHeader { header_string, page_size })
    }
}

/// Walk the table tree rooted at page `idx` (zero-based) and append every
/// leaf row, in order, to `out`.
fn collect_table_rows(pages: &Vec<Page>, idx: u64, fuel: u64, out: &mut Vec<(i64, Record)>) -> (r:
    Result<(), DbError>)
    ensures
        match r {
            Ok(_) => spec_table_rows(pages@, idx as int, fuel as nat) matches Ok(rows) && rows_view(
                final(out)@,
            ) == rows_view(old(out)@) + rows,
            Err(e) => spec_table_rows(pages@, idx as int, fuel as nat) == Err::<
                Seq<(i64, Seq<ColumnView>)>,
                DbError,
            >(e),
        },
    decreases fuel,
{
    let ghost gtotal = spec_table_rows(pages@, idx as int, fuel as nat);
    let ghost base = rows_view(out@);
    if idx >= pages.len() as u64 {
        proof {
            assert(base + Seq::<(i64, Seq<ColumnView>)>::empty() =~= base);
        }
        return Ok(());
    }
    let pi = idx as usize;
    let p = &pages[pi];
    let n = p.cell_offsets.len();
    let ghost mut done: Seq<(i64, Seq<ColumnView>)> = Seq::empty();
    match p.btree_header.page_type {
        PageType::LeafTable => {
            let mut i: usize = 0;
            proof {
                assert(base + done =~= base);
            }
            while i < n
                invariant
                    0 <= i <= n,
                    n == p.cell_offsets@.len(),
                    p == &pages@[idx as int],
                    idx < pages@.len(),
                    p.btree_header.page_type == PageType::LeafTable,
                    gtotal == spec_table_rows(pages@, idx as int, fuel as nat),
                    gtotal == spec_leaf_rows(*p, 0),
                    rows_view(out@) == base + done,
                    match spec_leaf_rows(*p, i as int) {
                        Err(e) => gtotal == Err::<Seq<(i64, Seq<ColumnView>)>, DbError>(e),
                        Ok(rest) => gtotal == Ok::<Seq<(i64, Seq<ColumnView>)>, DbError>(
                            done + rest,
                        ),
                    },
                decreases n - i,
            {
                let cell = match Cell::from_bytes(
                    &p.btree_header.page_type,
                    p.cell_offsets[i] as usize,
                    p.buffer.as_slice(),
                ) {
                    Ok(c) => c,
                    Err(e) => {
                        return Err(e);
                    },
                };
                match cell {
                    Cell::LeafTable { rowid, record, .. } => {
                        let ghost rv = record@;
                        out.push((rowid, record));
                        proof {
                            assert(rows_view(out@) =~= (base + done).push((rowid, rv)));
                            let rest_new = spec_leaf_rows(*p, i as int + 1);
                            if rest_new is Ok {
                                assert(done + (seq![(rowid, rv)] + rest_new->Ok_0) =~= done.push(
                                    (rowid, rv),
                                ) + rest_new->Ok_0);
                            }
                            assert((base + done).push((rowid, rv)) =~= base + done.push(
                                (rowid, rv),
                            ));
                            done = done.push((rowid, rv));
                        }
                    },
                    _ => {
                        return vstd::pervasive::unreached();
                    },
                }
                i = i + 1;
            }
            proof {
                assert(done + Seq::<(i64, Seq<ColumnView>)>::empty() =~= done);
            }
            Ok(())
        },
        PageType::InteriorTable => {
            if fuel == 0 {
                return Err(DbError::OutOfRangeRead);
            }
            let f1 = fuel - 1;
            let mut i: usize = 0;
            proof {
                assert(base + done =~= base);
            }
            while i < n
                invariant
                    0 <= i <= n,
                    n == p.cell_offsets@.len(),
                    p == &pages@[idx as int],
                    idx < pages@.len(),
                    f1 < fuel,
                    p.btree_header.page_type == PageType::InteriorTable,
                    gtotal == spec_table_rows(pages@, idx as int, fuel as nat),
                    rows_view(out@) == base + done,
                    match spec_interior_rows(pages@, idx as int, i as int, f1 as nat) {
                        Err(e) => gtotal == Err::<Seq<(i64, Seq<ColumnView>)>, DbError>(e),
                        Ok(rest) => gtotal == Ok::<Seq<(i64, Seq<ColumnView>)>, DbError>(
                            done + rest,
                        ),
                    },
                decreases n - i,
            {
                let cell = match Cell::from_bytes(
                    &p.btree_header.page_type,
                    p.cell_offsets[i] as usize,
                    p.buffer.as_slice(),
                ) {
                    Ok(c) => c,
                    Err(e) => {
                        return Err(e);
                    },
                };
                match cell {
                    Cell::InteriorTable { page_number_left_child: num, .. } => {
                        let ghost child_rows = spec_table_rows(pages@, num as int - 1, f1 as nat);
                        if num >= 1 {
                            match collect_table_rows(pages, (num - 1) as u64, f1, out) {
                                Ok(_) => {},
                                Err(e) => {
                                    return Err(e);
                                },
                            }
                        } else {
                            proof {
                                assert(child_rows == Ok::<Seq<(i64, Seq<ColumnView>)>, DbError>(
                                    Seq::empty(),
                                ));
                                assert(base + done + Seq::<(i64, Seq<ColumnView>)>::empty() =~= base
                                    + done);
                            }
                        }
                        proof {
                            let got = child_rows->Ok_0;
                            assert(rows_view(out@) =~= base + (done + got));
                            let rest_new = spec_interior_rows(
                                pages@,
                                idx as int,
                                i as int + 1,
                                f1 as nat,
                            );
                            if rest_new is Ok {
                                assert(done + (got + rest_new->Ok_0) =~= (done + got)
                                    + rest_new->Ok_0);
                            }
                            done = done + got;
                        }
                    },
                    _ => {
                        return vstd::pervasive::unreached();
                    },
                }
                i = i + 1;
            }
            // the right-most child finishes the page
            match p.btree_header.right_most_pointer {
                Some(num) => {
                    let ghost child_rows = spec_table_rows(pages@, num as int - 1, f1 as nat);
                    if num >= 1 {
                        match collect_table_rows(pages, (num - 1) as u64, f1, out) {
                            Ok(_) => {},
                            Err(e) => {
                                return Err(e);
                            },
                        }
                    } else {
                        proof {
                            assert(child_rows == Ok::<Seq<(i64, Seq<ColumnView>)>, DbError>(
                                Seq::empty(),
                            ));
                            assert(base + done + Seq::<(i64, Seq<ColumnView>)>::empty() =~= base
                                + done);
                        }
                    }
                    proof {
                        assert(rows_view(out@) =~= base + (done + child_rows->Ok_0));
                    }
                    Ok(())
                },
                None => {
                    proof {
                        assert(done + Seq::<(i64, Seq<ColumnView>)>::empty() =~= done);
                    }
                    Ok(())
                },
            }
        },
        _ => Err(DbError::InvalidPageType),
    }
}

/// The 16-byte magic text that opens every database file.
pub open spec fn spec_magic() -> Seq<char> {
    "SQLite format 3\u{0}"@
}

/// The bytes of the `i`-th page of the file.
pub open spec fn spec_chunk(file: Seq<u8>, i: int) -> Seq<u8> {
    let ps = be_bytes(file, 16, 2);
    file.subrange(i * ps, (i + 1) * ps)
}

/// A file opens successfully exactly when it starts with the magic text,
/// declares a positive page size that divides the file's length, and every
/// page parses.
pub open spec fn spec_db_ok(file: Seq<u8>) -> bool {
    &&& file.len() >= 100
    &&& vstd::utf8::valid_utf8(file.subrange(0, 16))
    &&& vstd::utf8::decode_utf8(file.subrange(0, 16)) == spec_magic()
    &&& be_bytes(file, 16, 2) > 0
    &&& file.len() as int % be_bytes(file, 16, 2) == 0
    &&& forall|i: int|
        0 <= i < file.len() as int / be_bytes(file, 16, 2) ==> crate::page::spec_page_ok(
            i,
            #[trigger] spec_chunk(file, i),
        )
}

/// What a schema row contributes to the table listing: its table name and a
/// space, for rows whose type column is `table` and whose name is not
/// `sqlite_sequence`.
pub open spec fn spec_name_entry(cols: Seq<ColumnView>) -> Seq<char> {
    if cols.len() >= 3 {
        match (cols[0].data, cols[2].data) {
            (
                crate::column::ValueView::String(t0),
                crate::column::ValueView::String(t2),
            ) => if t0 == "table"@ && t2 != "sqlite_sequence"@ {
                t2 + seq![' ']
            } else {
                Seq::empty()
            },
            _ => Seq::empty(),
        }
    } else {
        Seq::empty()
    }
}

/// The space-delimited table listing built from the schema rows in order.
pub open spec fn spec_names_text(rows: Seq<(i64, Seq<ColumnView>)>) -> Seq<char>
    decreases rows.len(),
{
    if rows.len() == 0 {
        Seq::empty()
    } else {
        spec_names_text(rows.drop_last()) + spec_name_entry(rows.last().1)
    }
}

/// The first position at or after `lo` whose value reaches `key`, found by
/// binary search over the sorted tail of `ids`.
fn lower_bound(ids: &Vec<i64>, lo: usize, key: i64) -> (r: usize)
    requires
        lo <= ids@.len(),
        sorted_strict(ids@),
    ensures
        r == spec_lower_bound(ids@, lo as int, key),
        lo <= r <= ids@.len(),
{
    let mut a = lo;
    let mut b = ids.len();
    while a < b
        invariant
            lo <= a <= b <= ids@.len(),
            sorted_strict(ids@),
            forall|m: int| lo <= m < a ==> ids@[m] < key,
            forall|m: int| b <= m < ids@.len() ==> ids@[m] >= key,
        decreases b - a,
    {
        let mid = a + (b - a) / 2;
        if ids[mid] < key {
            a = mid + 1;
        } else {
            b = mid;
        }
    }
    proof {
        lemma_lower_bound_char(ids@, lo as int, key);
        let s = spec_lower_bound(ids@, lo as int, key);
        if (a as int) < s {
            assert(ids@[a as int] < key);
        }
        if s < (a as int) {
            assert(ids@[s] < key);
        }
    }
    a
}

/// Whether the sorted sequence holds `key`.
fn contains_sorted(ids: &Vec<i64>, key: i64) -> (b: bool)
    requires
        sorted_strict(ids@),
    ensures
        b == ids@.contains(key),
{
    let r = lower_bound(ids, 0, key);
    if r < ids.len() && ids[r] == key {
        proof {
            assert(ids@.contains(key));
        }
        true
    } else {
        proof {
            lemma_lower_bound_char(ids@, 0, key);
            if ids@.contains(key) {
                let m = choose|m: int| 0 <= m < ids@.len() && ids@[m] == key;
                assert(m >= r);
                assert(ids@[r as int] >= key);
                if m > r {
                    assert(ids@[r as int] < ids@[m]);
                }
            }
        }
        false
    }
}

/// Lexicographic comparison of two byte strings.
fn compare_bytes(a: &[u8], b: &[u8]) -> (o: KeyOrder)
    ensures
        o == spec_byte_cmp(a@, b@),
{
    let alen = a.len();
    let blen = b.len();
    let mut k: usize = 0;
    proof {
        assert(a@.skip(0) =~= a@);
        assert(b@.skip(0) =~= b@);
    }
    while k < alen && k < blen
        invariant
            0 <= k <= alen,
            k <= blen,
            alen == a@.len(),
            blen == b@.len(),
            spec_byte_cmp(a@, b@) == spec_byte_cmp(a@.skip(k as int), b@.skip(k as int)),
        decreases alen - k,
    {
        proof {
            assert(a@.skip(k as int)[0] == a@[k as int]);
            assert(b@.skip(k as int)[0] == b@[k as int]);
            assert(a@.skip(k as int).len() == alen - k);
            assert(b@.skip(k as int).len() == blen - k);
        }
        if a[k] < b[k] {
            return KeyOrder::Less;
        }
        if a[k] > b[k] {
            return KeyOrder::Greater;
        }
        proof {
            assert(a@.skip(k as int).skip(1) =~= a@.skip(k as int + 1));
            assert(b@.skip(k as int).skip(1) =~= b@.skip(k as int + 1));
        }
        k = k + 1;
    }
    proof {
        assert(a@.skip(k as int).len() == alen - k);
        assert(b@.skip(k as int).len() == blen - k);
    }
    if alen < blen {
        KeyOrder::Less
    } else if alen > blen {
        KeyOrder::Greater
    } else {
        KeyOrder::Equal
    }
}

/// Insert a rowid into a strictly sorted list, keeping it sorted and
/// without duplicates.
fn insert_sorted(v: &mut Vec<i64>, x: i64)
    requires
        sorted_strict(old(v)@),
    ensures
        sorted_strict(final(v)@),
        idset(final(v)@) == idset(old(v)@).insert(x),
{
    let pos = lower_bound(v, 0, x);
    proof {
        lemma_lower_bound_char(v@, 0, x);
    }
    if pos < v.len() {
        if v[pos] == x {
            proof {
                assert(v@.contains(x));
                assert(idset(v@) =~= idset(old(v)@).insert(x));
            }
            return ;
        }
    }
    let ghost prev = v@;
    proof {
        prev.insert_ensures(pos as int, x);
    }
    v.insert(pos, x);
    proof {
        let pi = pos as int;
        assert(v@ == prev.insert(pi, x));
        assert(pi < prev.len() ==> prev[pi] > x);
        assert forall|k1: int, k2: int| 0 <= k1 < k2 < v@.len() implies v@[k1] < v@[k2] by {
            if k1 > pi {
                assert(prev.insert(pi, x)[(k1 - 1) + 1] == prev[k1 - 1]);
            }
            if k2 > pi {
                assert(prev.insert(pi, x)[(k2 - 1) + 1] == prev[k2 - 1]);
            }
            if k1 < pi && k2 == pi {
                assert(prev[k1] < x);
            }
            if k1 == pi && k2 > pi {
                assert(prev[k2 - 1] >= prev[pi]);
            }
        }
        assert forall|y: i64| idset(v@).contains(y) implies idset(prev).insert(x).contains(y) by {
            let k = choose|k: int| 0 <= k < v@.len() && v@[k] == y;
            if k < pi {
                assert(prev[k] == y);
            } else if k > pi {
                assert(prev.insert(pi, x)[(k - 1) + 1] == prev[k - 1]);
                assert(prev[k - 1] == y);
            }
        }
        assert forall|y: i64| idset(prev).insert(x).contains(y) implies idset(v@).contains(y) by {
            if y == x {
                assert(v@[pi] == x);
            } else {
                let k = choose|k: int| 0 <= k < prev.len() && prev[k] == y;
                if k < pi {
                    assert(v@[k] == y);
                } else {
                    assert(prev.insert(pi, x)[k + 1] == prev[k]);
                    assert(v@[k + 1] == y);
                }
            }
        }
        assert(idset(v@) =~= idset(prev).insert(x));
    }
}

/// Walk the table tree at page `idx`, pruned by the sorted wanted rowids,
/// and append the kept rows to `out`.
fn collect_ids_rows(
    pages: &Vec<Page>,
    idx: u64,
    ids: &Vec<i64>,
    fuel: u64,
    out: &mut Vec<(i64, Record)>,
) -> (r: Result<(), DbError>)
    requires
        sorted_strict(ids@),
    ensures
        match r {
            Ok(_) => spec_ids_rows(pages@, idx as int, ids@, fuel as nat) matches Ok(rows)
                && rows_view(final(out)@) == rows_view(old(out)@) + rows,
            Err(e) => spec_ids_rows(pages@, idx as int, ids@, fuel as nat) == Err::<
                Seq<(i64, Seq<ColumnView>)>,
                DbError,
            >(e),
        },
    decreases fuel,
{
    let ghost gtotal = spec_ids_rows(pages@, idx as int, ids@, fuel as nat);
    let ghost base = rows_view(out@);
    if idx >= pages.len() as u64 {
        proof {
            assert(base + Seq::<(i64, Seq<ColumnView>)>::empty() =~= base);
        }
        return Ok(());
    }
    let pi = idx as usize;
    let p = &pages[pi];
    let n = p.cell_offsets.len();
    let ghost mut done: Seq<(i64, Seq<ColumnView>)> = Seq::empty();
    match p.btree_header.page_type {
        PageType::LeafTable => {
            let mut i: usize = 0;
            proof {
                assert(base + done =~= base);
            }
            while i < n
                invariant
                    0 <= i <= n,
                    n == p.cell_offsets@.len(),
                    p == &pages@[idx as int],
                    idx < pages@.len(),
                    sorted_strict(ids@),
                    p.btree_header.page_type == PageType::LeafTable,
                    gtotal == spec_ids_rows(pages@, idx as int, ids@, fuel as nat),
                    rows_view(out@) == base + done,
                    match spec_leaf_rows(*p, i as int) {
                        Err(e) => gtotal == Err::<Seq<(i64, Seq<ColumnView>)>, DbError>(e),
                        Ok(rest) => gtotal == Ok::<Seq<(i64, Seq<ColumnView>)>, DbError>(
                            done + spec_rows_with_ids(rest, ids@),
                        ),
                    },
                decreases n - i,
            {
                let cell = match Cell::from_bytes(
                    &p.btree_header.page_type,
                    p.cell_offsets[i] as usize,
                    p.buffer.as_slice(),
                ) {
                    Ok(c) => c,
                    Err(e) => {
                        return Err(e);
                    },
                };
                match cell {
                    Cell::LeafTable { rowid, record, .. } => {
                        let ghost rv = record@;
                        let ghost row = (rowid, rv);
                        proof {
                            let rest_new = spec_leaf_rows(*p, i as int + 1);
                            if rest_new is Ok {
                                lemma_rows_with_ids_concat(seq![row], rest_new->Ok_0, ids@);
                                assert(spec_rows_with_ids(
                                    Seq::<(i64, Seq<ColumnView>)>::empty(),
                                    ids@,
                                ) =~= Seq::<(i64, Seq<ColumnView>)>::empty());
                                assert(seq![row].drop_last() =~= Seq::<
                                    (i64, Seq<ColumnView>),
                                >::empty());
                                assert(seq![row].last() == row);
                                if ids@.contains(rowid) {
                                    assert(spec_rows_with_ids(seq![row], ids@) =~= seq![row]);
                                } else {
                                    assert(spec_rows_with_ids(seq![row], ids@) =~= Seq::<
                                        (i64, Seq<ColumnView>),
                                    >::empty());
                                }
                            }
                        }
                        if contains_sorted(ids, rowid) {
                            out.push((rowid, record));
                            proof {
                                assert(rows_view(out@) =~= (base + done).push(row));
                                assert((base + done).push(row) =~= base + done.push(row));
                                let rest_new = spec_leaf_rows(*p, i as int + 1);
                                if rest_new is Ok {
                                    assert(done + (seq![row] + spec_rows_with_ids(
                                        rest_new->Ok_0,
                                        ids@,
                                    )) =~= done.push(row) + spec_rows_with_ids(
                                        rest_new->Ok_0,
                                        ids@,
                                    ));
                                }
                                done = done.push(row);
                            }
                        } else {
                            proof {
                                let rest_new = spec_leaf_rows(*p, i as int + 1);
                                if rest_new is Ok {
                                    assert(Seq::<(i64, Seq<ColumnView>)>::empty()
                                        + spec_rows_with_ids(rest_new->Ok_0, ids@)
                                        =~= spec_rows_with_ids(rest_new->Ok_0, ids@));
                                }
                            }
                        }
                    },
                    _ => {
                        return vstd::pervasive::unreached();
                    },
                }
                i = i + 1;
            }
            proof {
                let rest_end = spec_leaf_rows(*p, n as int);
                assert(rest_end == Ok::<Seq<(i64, Seq<ColumnView>)>, DbError>(Seq::empty()));
                assert(spec_rows_with_ids(Seq::empty(), ids@) =~= Seq::<
                    (i64, Seq<ColumnView>),
                >::empty());
                assert(done + Seq::<(i64, Seq<ColumnView>)>::empty() =~= done);
            }
            Ok(())
        },
        PageType::InteriorTable => {
            if fuel == 0 {
                return Err(DbError::OutOfRangeRead);
            }
            let f1 = fuel - 1;
            let mut i: usize = 0;
            let mut lo: usize = 0;
            proof {
                assert(base + done =~= base);
            }
            while i < n
                invariant
                    0 <= i <= n,
                    n == p.cell_offsets@.len(),
                    p == &pages@[idx as int],
                    idx < pages@.len(),
                    lo <= ids@.len(),
                    sorted_strict(ids@),
                    f1 < fuel,
                    p.btree_header.page_type == PageType::InteriorTable,
                    gtotal == spec_ids_rows(pages@, idx as int, ids@, fuel as nat),
                    rows_view(out@) == base + done,
                    match spec_ids_interior(
                        pages@,
                        idx as int,
                        ids@,
                        i as int,
                        lo as int,
                        f1 as nat,
                    ) {
                        Err(e) => gtotal == Err::<Seq<(i64, Seq<ColumnView>)>, DbError>(e),
                        Ok(rest) => gtotal == Ok::<Seq<(i64, Seq<ColumnView>)>, DbError>(
                            done + rest,
                        ),
                    },
                decreases n - i,
            {
                let cell = match Cell::from_bytes(
                    &p.btree_header.page_type,
                    p.cell_offsets[i] as usize,
                    p.buffer.as_slice(),
                ) {
                    Ok(c) => c,
                    Err(e) => {
                        return Err(e);
                    },
                };
                match cell {
                    Cell::InteriorTable { page_number_left_child: num, rowid } => {
                        let split = lower_bound(ids, lo, rowid);
                        let ghost child_rows = spec_ids_rows(
                            pages@,
                            num as int - 1,
                            ids@,
                            f1 as nat,
                        );
                        if split > lo && num >= 1 {
                            match collect_ids_rows(pages, (num - 1) as u64, ids, f1, out) {
                                Ok(_) => {},
                                Err(e) => {
                                    return Err(e);
                                },
                            }
                        } else {
                            proof {
                                if split > lo {
                                    assert(child_rows == Ok::<
                                        Seq<(i64, Seq<ColumnView>)>,
                                        DbError,
                                    >(Seq::empty()));
                                }
                                assert(base + done + Seq::<(i64, Seq<ColumnView>)>::empty() =~= base
                                    + done);
                            }
                        }
                        proof {
                            let got: Seq<(i64, Seq<ColumnView>)> = if split > lo {
                                child_rows->Ok_0
                            } else {
                                Seq::empty()
                            };
                            assert(rows_view(out@) =~= base + (done + got));
                            let rest_new = spec_ids_interior(
                                pages@,
                                idx as int,
                                ids@,
                                i as int + 1,
                                split as int,
                                f1 as nat,
                            );
                            if rest_new is Ok {
                                assert(done + (got + rest_new->Ok_0) =~= (done + got)
                                    + rest_new->Ok_0);
                            }
                            done = done + got;
                        }
                        lo = split;
                    },
                    _ => {
                        return vstd::pervasive::unreached();
                    },
                }
                i = i + 1;
            }
            if lo < ids.len() {
                match p.btree_header.right_most_pointer {
                    Some(num) => {
                        let ghost child_rows = spec_ids_rows(
                            pages@,
                            num as int - 1,
                            ids@,
                            f1 as nat,
                        );
                        if num >= 1 {
                            match collect_ids_rows(pages, (num - 1) as u64, ids, f1, out) {
                                Ok(_) => {},
                                Err(e) => {
                                    return Err(e);
                                },
                            }
                        } else {
                            proof {
                                assert(child_rows == Ok::<Seq<(i64, Seq<ColumnView>)>, DbError>(
                                    Seq::empty(),
                                ));
                                assert(base + done + Seq::<(i64, Seq<ColumnView>)>::empty() =~= base
                                    + done);
                            }
                        }
                        proof {
                            assert(rows_view(out@) =~= base + (done + child_rows->Ok_0));
                        }
                        Ok(())
                    },
                    None => {
                        proof {
                            assert(done + Seq::<(i64, Seq<ColumnView>)>::empty() =~= done);
                        }
                        Ok(())
                    },
                }
            } else {
                proof {
                    assert(done + Seq::<(i64, Seq<ColumnView>)>::empty() =~= done);
                }
                Ok(())
            }
        },
        _ => Err(DbError::InvalidPageType),
    }
}

/// Search the index tree at page `idx` for the entries whose key equals
/// `key`, gathering their table rowids into the sorted set `rowids`.
#[verifier::rlimit(100)]
fn search_index(pages: &Vec<Page>, idx: u64, key: &String, fuel: u64, rowids: &mut Vec<i64>) -> (r:
    Result<(), DbError>)
    requires
        sorted_strict(old(rowids)@),
    ensures
        match r {
            Ok(_) => {
                &&& spec_index_rowids(
                    pages@,
                    idx as int,
                    vstd::utf8::encode_utf8(key@),
                    fuel as nat,
                ) matches Ok(found)
                &&& sorted_strict(final(rowids)@)
                &&& idset(final(rowids)@) == idset(old(rowids)@).union(idset(found))
            },
            Err(e) => spec_index_rowids(pages@, idx as int, vstd::utf8::encode_utf8(key@), fuel as nat)
                == Err::<Seq<i64>, DbError>(e),
        },
    decreases fuel,
{
    let ghost kb = vstd::utf8::encode_utf8(key@);
    let ghost gtotal = spec_index_rowids(pages@, idx as int, kb, fuel as nat);
    if idx >= pages.len() as u64 {
        proof {
            assert(idset(rowids@).union(idset(Seq::<i64>::empty())) =~= idset(rowids@));
        }
        return Ok(());
    }
    let p = &pages[idx as usize];
    let n = p.cell_offsets.len();
    let ghost mut gdone: Set<i64> = Set::empty();
    match p.btree_header.page_type {
        PageType::LeafIndex => {
            let mut i: usize = 0;
            proof {
                assert(idset(rowids@).union(gdone) =~= idset(rowids@));
            }
            while i < n
                invariant
                    0 <= i <= n,
                    n == p.cell_offsets@.len(),
                    p == &pages@[idx as int],
                    idx < pages@.len(),
                    p.btree_header.page_type == PageType::LeafIndex,
                    kb == vstd::utf8::encode_utf8(key@),
                    gtotal == spec_index_rowids(pages@, idx as int, kb, fuel as nat),
                    sorted_strict(rowids@),
                    idset(rowids@) == idset(old(rowids)@).union(gdone),
                    match spec_index_leaf(*p, i as int, kb) {
                        Err(e) => gtotal == Err::<Seq<i64>, DbError>(e),
                        Ok(rest) => gtotal matches Ok(all) && idset(all) == gdone.union(
                            idset(rest),
                        ),
                    },
                decreases n - i,
            {
                let cell = match Cell::from_bytes(
                    &p.btree_header.page_type,
                    p.cell_offsets[i] as usize,
                    p.buffer.as_slice(),
                ) {
                    Ok(c) => c,
                    Err(e) => {
                        return Err(e);
                    },
                };
                match cell {
                    Cell::LeafIndex { record, .. } => {
                        let ghost rv = record@;
                        let mut matched = false;
                        if record.columns.len() >= 1 {
                            match record.columns[0].data() {
                                crate::column::SerialValue::String(t) => {
                                    proof {
                                        assert(rv[0] == record.columns@[0]@);
                                    }
                                    let o = compare_bytes(
                                        t.as_str().as_bytes(),
                                        key.as_str().as_bytes(),
                                    );
                                    proof {
                                        lemma_byte_cmp_eq(vstd::utf8::encode_utf8(t@), kb);
                                    }
                                    matched = match o {
                                        KeyOrder::Equal => true,
                                        _ => false,
                                    };
                                },
                                _ => {},
                            }
                        }
                        if matched {
                            if record.columns.len() < 2 {
                                return Err(DbError::OutOfRangeRead);
                            }
                            let id = match int_column_value(&record, 1) {
                                Some(id) => id,
                                None => {
                                    return Err(DbError::InvalidSerialType);
                                },
                            };
                            proof {
                                assert(rv[1] == record.columns@[1]@);
                                assert(spec_entry_rowid(rv) == Ok::<i64, DbError>(id));
                            }
                            insert_sorted(rowids, id);
                            proof {
                                let rest_new = spec_index_leaf(*p, i as int + 1, kb);
                                if rest_new is Ok {
                                    lemma_idset_concat(seq![id], rest_new->Ok_0);
                                    assert(seq![id][0] == id);
                                    assert(seq![id].contains(id));
                                    assert(idset(seq![id]) =~= Set::<i64>::empty().insert(id));
                                    assert(gdone.union(
                                        idset(seq![id]).union(idset(rest_new->Ok_0)),
                                    ) =~= gdone.insert(id).union(idset(rest_new->Ok_0)));
                                    assert(idset(old(rowids)@).union(gdone).insert(id) =~= idset(
                                        old(rowids)@,
                                    ).union(gdone.insert(id)));
                                }
                                gdone = gdone.insert(id);
                            }
                        }
                    },
                    _ => {
                        return vstd::pervasive::unreached();
                    },
                }
                i = i + 1;
            }
            proof {
                assert(spec_index_leaf(*p, n as int, kb) == Ok::<Seq<i64>, DbError>(Seq::empty()));
                assert(gdone.union(idset(Seq::<i64>::empty())) =~= gdone);
            }
            Ok(())
        },
        PageType::InteriorIndex => {
            if fuel == 0 {
                return Err(DbError::OutOfRangeRead);
            }
            let f1 = fuel - 1;
            let mut i: usize = 0;
            proof {
                assert(idset(rowids@).union(gdone) =~= idset(rowids@));
            }
            while i < n
                invariant
                    0 <= i <= n,
                    n == p.cell_offsets@.len(),
                    p == &pages@[idx as int],
                    idx < pages@.len(),
                    f1 < fuel,
                    p.btree_header.page_type == PageType::InteriorIndex,
                    kb == vstd::utf8::encode_utf8(key@),
                    gtotal == spec_index_rowids(pages@, idx as int, kb, fuel as nat),
                    sorted_strict(rowids@),
                    idset(rowids@) == idset(old(rowids)@).union(gdone),
                    match spec_index_interior(pages@, idx as int, kb, i as int, f1 as nat) {
                        Err(e) => gtotal == Err::<Seq<i64>, DbError>(e),
                        Ok(rest) => gtotal matches Ok(all) && idset(all) == gdone.union(
                            idset(rest),
                        ),
                    },
                decreases n - i,
            {
                let cell = match Cell::from_bytes(
                    &p.btree_header.page_type,
                    p.cell_offsets[i] as usize,
                    p.buffer.as_slice(),
                ) {
                    Ok(c) => c,
                    Err(e) => {
                        return Err(e);
                    },
                };
                match cell {
                    Cell::InteriorIndex { page_number_left_child: num, record, .. } => {
                        let ghost rv = record@;
                        let mut order: Option<KeyOrder> = None;
                        if record.columns.len() >= 1 {
                            match record.columns[0].data() {
                                crate::column::SerialValue::String(t) => {
                                    proof {
                                        assert(rv[0] == record.columns@[0]@);
                                    }
                                    let o = compare_bytes(
                                        key.as_str().as_bytes(),
                                        t.as_str().as_bytes(),
                                    );
                                    order = Some(o);
                                },
                                _ => {},
                            }
                        }
                        match order {
                            None => {
                                // an entry with no text key routes nothing
                            },
                            Some(KeyOrder::Greater) => {
                                // the wanted key lies beyond this separator
                            },
                            Some(KeyOrder::Less) => {
                                // every match lies below this cell's left child
                                let ghost child = spec_index_rowids(
                                    pages@,
                                    num as int - 1,
                                    kb,
                                    f1 as nat,
                                );
                                if num >= 1 {
                                    match search_index(pages, (num - 1) as u64, key, f1, rowids) {
                                        Ok(_) => {},
                                        Err(e) => {
                                            return Err(e);
                                        },
                                    }
                                } else {
                                    proof {
                                        assert(child == Ok::<Seq<i64>, DbError>(Seq::empty()));
                                        assert(idset(rowids@).union(idset(Seq::<i64>::empty()))
                                            =~= idset(rowids@));
                                    }
                                }
                                proof {
                                    assert(idset(old(rowids)@).union(gdone).union(
                                        idset(child->Ok_0),
                                    ) =~= idset(old(rowids)@).union(
                                        gdone.union(idset(child->Ok_0)),
                                    ));
                                }
                                return Ok(());
                            },
                            Some(KeyOrder::Equal) => {
                                if record.columns.len() < 2 {
                                    return Err(DbError::OutOfRangeRead);
                                }
                                let id = match int_column_value(&record, 1) {
                                    Some(id) => id,
                                    None => {
                                        return Err(DbError::InvalidSerialType);
                                    },
                                };
                                proof {
                                    assert(rv[1] == record.columns@[1]@);
                                    assert(spec_entry_rowid(rv) == Ok::<i64, DbError>(id));
                                }
                                insert_sorted(rowids, id);
                                proof {
                                    gdone = gdone.insert(id);
                                    assert(idset(rowids@) =~= idset(old(rowids)@).union(gdone));
                                }
                                let ghost child = spec_index_rowids(
                                    pages@,
                                    num as int - 1,
                                    kb,
                                    f1 as nat,
                                );
                                if num >= 1 {
                                    match search_index(pages, (num - 1) as u64, key, f1, rowids) {
                                        Ok(_) => {},
                                        Err(e) => {
                                            return Err(e);
                                        },
                                    }
                                } else {
                                    proof {
                                        assert(child == Ok::<Seq<i64>, DbError>(Seq::empty()));
                                        assert(idset(rowids@).union(idset(Seq::<i64>::empty()))
                                            =~= idset(rowids@));
                                    }
                                }
                                proof {
                                    let rest_new = spec_index_interior(
                                        pages@,
                                        idx as int,
                                        kb,
                                        i as int + 1,
                                        f1 as nat,
                                    );
                                    if rest_new is Ok && child is Ok {
                                        lemma_idset_concat(
                                            seq![id] + child->Ok_0,
                                            rest_new->Ok_0,
                                        );
                                        lemma_idset_concat(seq![id], child->Ok_0);
                                        assert(seq![id][0] == id);
                                        assert(seq![id].contains(id));
                                        assert(idset(seq![id]) =~= Set::<i64>::empty().insert(id));
                                        assert((seq![id] + child->Ok_0) + rest_new->Ok_0
                                            =~= seq![id] + child->Ok_0 + rest_new->Ok_0);
                                    }
                                    gdone = gdone.union(idset(child->Ok_0));
                                    assert(idset(rowids@) =~= idset(old(rowids)@).union(gdone));
                                }
                            },
                        }
                    },
                    _ => {
                        return vstd::pervasive::unreached();
                    },
                }
                i = i + 1;
            }
            // no separator exceeded the key: the right-most child may still
            // hold matches
            match p.btree_header.right_most_pointer {
                Some(num) => {
                    let ghost child = spec_index_rowids(pages@, num as int - 1, kb, f1 as nat);
                    if num >= 1 {
                        match search_index(pages, (num - 1) as u64, key, f1, rowids) {
                            Ok(_) => {},
                            Err(e) => {
                                return Err(e);
                            },
                        }
                    } else {
                        proof {
                            assert(child == Ok::<Seq<i64>, DbError>(Seq::empty()));
                            assert(idset(rowids@).union(idset(Seq::<i64>::empty())) =~= idset(
                                rowids@,
                            ));
                        }
                    }
                    proof {
                        assert(idset(old(rowids)@).union(gdone).union(idset(child->Ok_0)) =~= idset(
                            old(rowids)@,
                        ).union(gdone.union(idset(child->Ok_0))));
                    }
                    Ok(())
                },
                None => {
                    proof {
                        assert(gdone.union(idset(Seq::<i64>::empty())) =~= gdone);
                    }
                    Ok(())
                },
            }
        },
        _ => Err(DbError::InvalidPageType),
    }
}

/// The magic text as an owned string.
fn expected_magic() -> (s: String)
    ensures
        s@ == spec_magic(),
{
    String::from_str("SQLite format 3\u{0}")
}

/// The schema type tag of a table row.
fn expected_word_table() -> (s: String)
    ensures
        s@ == "table"@,
{
    String::from_str("table")
}

/// The bookkeeping table the listing leaves out.
fn expected_word_sequence() -> (s: String)
    ensures
        s@ == "sqlite_sequence"@,
{
    String::from_str("sqlite_sequence")
}

/// The whole decoded database: the file header and one `Page` per
/// `page_size` bytes of the file.
#[derive(Debug, Clone, PartialEq, Eq)]
pub struct Database {
    /// The first 100 bytes of the database file comprise the database file
    /// header; this is its decoded form.
    pub header: DbHeader,
    pub pages: Vec<Page>,
}

impl Database {
    /// Every page is parsed coherently with its own bytes and numbered by
    /// its position.
    pub open spec fn wf(self) -> bool {
        forall|i: int|
            0 <= i < self.pages@.len() ==> (#[trigger] self.pages@[i]).wf() && self.pages@[i].index
                == i
    }

    /// Decode a whole database file: check the magic text and the page
    /// size, then parse one page per `page_size` bytes.
    pub fn from_bytes(file: Vec<u8>) -> (r: Result<Database, DbError>)
        ensures
            match r {
                Ok(db) => {
                    &&& spec_db_ok(file@)
                    &&& db.wf()
                    &&& db.header.header_string@ == spec_magic()
                    &&& db.header.page_size == be_bytes(file@, 16, 2)
                    &&& db.pages@.len() == file@.len() as int / be_bytes(file@, 16, 2)
                    &&& forall|i: int|
                        0 <= i < db.pages@.len() ==> (#[trigger] db.pages@[i]).buffer@
                            == spec_chunk(file@, i)
                },
                Err(e) => {
                    &&& !spec_db_ok(file@)
                    &&& (file@.len() < 100 ==> e == DbError::FormatMismatch)
                    &&& (file@.len() >= 100 && !vstd::utf8::valid_utf8(file@.subrange(0, 16)) ==> e
                        == DbError::Utf8DecodeError)
                    &&& (file@.len() >= 100 && vstd::utf8::valid_utf8(file@.subrange(0, 16)) && (
                    vstd::utf8::decode_utf8(file@.subrange(0, 16)) != spec_magic() || be_bytes(
                        file@,
                        16,
                        2,
                    ) <= 0 || file@.len() as int % be_bytes(file@, 16, 2) != 0) ==> e
                        == DbError::FormatMismatch)
                },
            },
    {
        let flen = file.len();
        if flen < 100 {
            return Err(DbError::FormatMismatch);
        }
        let fs = file.as_slice();
        let hdr100 = vstd::slice::slice_subrange(fs, 0, 100);
        proof {
            assert(hdr100@.subrange(0, 16) =~= file@.subrange(0, 16));
            assert(be_bytes(hdr100@, 16, 0) == 0 && be_bytes(file@, 16, 0) == 0);
            assert(be_bytes(hdr100@, 16, 1) == hdr100@[16]);
            assert(be_bytes(file@, 16, 1) == file@[16]);
            assert(be_bytes(hdr100@, 16, 2) == be_bytes(file@, 16, 2)) by {
                assert(hdr100@[16] == file@[16]);
                assert(hdr100@[17] == file@[17]);
            }
        }
        let header = match DbHeader::new(hdr100) {
            Ok(h) => h,
            Err(e) => {
                return Err(e);
            },
        };
        let expected = expected_magic();
        if !crate::sql::str_eq(&header.header_string, &expected) {
            return Err(DbError::FormatMismatch);
        }
        let ps = header.page_size;
        if ps == 0 {
            return Err(DbError::FormatMismatch);
        }
        if flen % ps != 0 {
            return Err(DbError::FormatMismatch);
        }
        let n = flen / ps;
        proof {
            vstd::arithmetic::div_mod::lemma_fundamental_div_mod(flen as int, ps as int);
        }
        let mut pages: Vec<Page> = Vec::new();
        let mut i: usize = 0;
        let mut off: usize = 0;
        while i < n
            invariant
                0 <= i <= n,
                off == i as int * ps as int,
                ps == be_bytes(file@, 16, 2),
                ps == header.page_size,
                ps > 0,
                flen == file@.len(),
                fs@ == file@,
                flen >= 100,
                n == flen as int / ps as int,
                flen as int == n as int * ps as int,
                flen as int % ps as int == 0,
                vstd::utf8::valid_utf8(file@.subrange(0, 16)),
                vstd::utf8::decode_utf8(file@.subrange(0, 16)) == spec_magic(),
                header.header_string@ == spec_magic(),
                pages@.len() == i,
                forall|j: int|
                    0 <= j < i ==> (#[trigger] pages@[j]).wf() && pages@[j].index == j
                        && pages@[j].buffer@ == spec_chunk(file@, j) && crate::page::spec_page_ok(
                        j,
                        spec_chunk(file@, j),
                    ),
            decreases n - i,
        {
            proof {
                vstd::arithmetic::mul::lemma_mul_inequality(i as int + 1, n as int, ps as int);
                assert((i as int + 1) * (ps as int) == i as int * ps as int + ps as int)
                    by (nonlinear_arith);
            }
            let chunk = vstd::slice::slice_subrange(fs, off, off + ps);
            proof {
                assert(chunk@ == spec_chunk(file@, i as int));
            }
            let db_header = if i == 0 {
                match DbHeader::new(vstd::slice::slice_subrange(fs, 0, 100)) {
                    Ok(h) => Some(h),
                    Err(_) => None,
                }
            } else {
                None
            };
            let page = match Page::new(i, db_header, chunk) {
                Ok(p) => p,
                Err(e) => {
                    proof {
                        assert(!crate::page::spec_page_ok(i as int, spec_chunk(file@, i as int)));
                        assert(!spec_db_ok(file@));
                    }
                    return Err(e);
                },
            };
            pages.push(page);
            off = off + ps;
            i = i + 1;
        }
        proof {
            assert forall|j: int|
                0 <= j < file@.len() as int / be_bytes(file@, 16, 2) implies crate::page::spec_page_ok(
                j,
                #[trigger] spec_chunk(file@, j),
            ) by {
                assert(pages@[j].wf() && pages@[j].buffer@ == spec_chunk(file@, j));
            }
        }
        Ok(Database { header, pages })
    }

    /// The space-delimited listing of the table names on the schema page:
    /// every schema row of type `table`, except `sqlite_sequence`, each
    /// followed by one space.
    pub fn table_names(&self) -> (r: Result<String, DbError>)
        ensures
            match r {
                Ok(s) => {
                    &&& self.pages@.len() > 0
                    &&& self.pages@[0].btree_header.page_type == PageType::LeafTable
                    &&& spec_leaf_rows(self.pages@[0], 0) matches Ok(rows) && s@ == spec_names_text(
                        rows,
                    )
                },
                Err(e) => {
                    ||| (self.pages@.len() == 0 && e == DbError::OutOfRangeRead)
                    ||| (self.pages@.len() > 0 && self.pages@[0].btree_header.page_type
                        != PageType::LeafTable && e == DbError::InvalidPageType)
                    ||| (self.pages@.len() > 0 && self.pages@[0].btree_header.page_type
                        == PageType::LeafTable && spec_leaf_rows(self.pages@[0], 0) == Err::<
                        Seq<(i64, Seq<ColumnView>)>,
                        DbError,
                    >(e))
                },
            },
    {
        if self.pages.len() == 0 {
            return Err(DbError::OutOfRangeRead);
        }
        let ghost res = spec_leaf_rows(self.pages@[0], 0);
        match self.pages[0].btree_header.page_type {
            PageType::LeafTable => {},
            _ => {
                return Err(DbError::InvalidPageType);
            },
        }
        let mut rows: Vec<(i64, Record)> = Vec::new();
        match collect_table_rows(&self.pages, 0, self.pages.len() as u64, &mut rows) {
            Ok(_) => {},
            Err(e) => {
                return Err(e);
            },
        }
        let ghost grows = res->Ok_0;
        proof {
            assert(rows_view(Seq::<(i64, Record)>::empty()) =~= Seq::<
                (i64, Seq<ColumnView>),
            >::empty());
            assert(Seq::<(i64, Seq<ColumnView>)>::empty() + grows =~= grows);
            assert(rows_view(rows@) == grows);
        }
        let table_word = expected_word_table();
        let seq_word = expected_word_sequence();
        let mut s = String::new();
        let mut k: usize = 0;
        proof {
            assert(grows.take(0) =~= Seq::<(i64, Seq<ColumnView>)>::empty());
        }
        while k < rows.len()
            invariant
                0 <= k <= rows@.len(),
                grows == rows_view(rows@),
                res == spec_leaf_rows(self.pages@[0], 0),
                self.pages@.len() > 0,
                self.pages@[0].btree_header.page_type == PageType::LeafTable,
                res == Ok::<Seq<(i64, Seq<ColumnView>)>, DbError>(grows),
                table_word@ == "table"@,
                seq_word@ == "sqlite_sequence"@,
                s@ == spec_names_text(grows.take(k as int)),
            decreases rows@.len() - k,
        {
            let record = &rows[k].1;
            proof {
                assert(grows[k as int] == (rows@[k as int].0, rows@[k as int].1@));
                assert(grows.take(k as int + 1).drop_last() =~= grows.take(k as int));
                assert(grows.take(k as int + 1).last() == grows[k as int]);
            }
            let ghost entry = spec_name_entry(grows[k as int].1);
            if record.columns.len() >= 3 {
                let is_table: bool = match record.columns[0].data() {
                    crate::column::SerialValue::String(t0) => crate::sql::str_eq(t0, &table_word),
                    _ => false,
                };
                if is_table {
                    match record.columns[2].data() {
                        crate::column::SerialValue::String(t2) => {
                            if !crate::sql::str_eq(t2, &seq_word) {
                                s.append(t2.as_str());
                                s.append(" ");
                                proof {
                                    reveal_strlit(" ");
                                    assert(" "@ =~= seq![' ']);
                                    assert(s@ =~= spec_names_text(grows.take(k as int)) + entry);
                                }
                            } else {
                                proof {
                                    assert(entry =~= Seq::<char>::empty());
                                    assert(s@ =~= spec_names_text(grows.take(k as int)) + entry);
                                }
                            }
                        },
                        _ => {
                            proof {
                                assert(entry =~= Seq::<char>::empty());
                                assert(s@ =~= spec_names_text(grows.take(k as int)) + entry);
                            }
                        },
                    }
                } else {
                    proof {
                        assert(entry =~= Seq::<char>::empty());
                        assert(s@ =~= spec_names_text(grows.take(k as int)) + entry);
                    }
                }
            } else {
                proof {
                    assert(entry =~= Seq::<char>::empty());
                    assert(s@ =~= spec_names_text(grows.take(k as int)) + entry);
                }
            }
            k = k + 1;
        }
        proof {
            assert(grows.take(rows@.len() as int) =~= grows);
        }
        Ok(s)
    }

    /// The file's page size, as the header declares it.
    pub fn page_size(&self) -> (n: usize)
        ensures
            n == self.header.page_size,
    {
        self.header.page_size
    }

    /// How many rows the table tree rooted at page number `num` holds: a
    /// full unfiltered walk that counts every leaf cell.
    pub fn count_rows(&self, num: usize) -> (r: Result<usize, DbError>)
        requires
            num >= 1,
        ensures
            match r {
                Ok(c) => spec_table_rows(
                    self.pages@,
                    num as int - 1,
                    self.pages@.len() as nat,
                ) matches Ok(rows) && c == rows.len(),
                Err(e) => spec_table_rows(self.pages@, num as int - 1, self.pages@.len() as nat)
                    == Err::<Seq<(i64, Seq<ColumnView>)>, DbError>(e),
            },
    {
        let mut rows: Vec<(i64, Record)> = Vec::new();
        match collect_table_rows(&self.pages, (num - 1) as u64, self.pages.len() as u64, &mut rows)
        {
            Ok(_) => {},
            Err(e) => {
                return Err(e);
            },
        }
        proof {
            assert(rows_view(Seq::<(i64, Record)>::empty()) =~= Seq::<
                (i64, Seq<ColumnView>),
            >::empty());
            assert(Seq::<(i64, Seq<ColumnView>)>::empty() + spec_table_rows(
                self.pages@,
                num as int - 1,
                self.pages@.len() as nat,
            )->Ok_0 =~= spec_table_rows(self.pages@, num as int - 1, self.pages@.len() as nat)->Ok_0);
        }
        Ok(rows.len())
    }

    /// Scan the table tree rooted at page number `num`, apply the resolved
    /// predicate to each row, and add each passing row's projection to the
    /// deduplicated row set.
    pub fn read_table(
        &self,
        num: usize,
        predicate: &Option<(usize, String)>,
        fields: &Vec<(usize, String)>,
        row_set: &mut Vec<String>,
    ) -> (r: Result<(), DbError>)
        requires
            num >= 1,
            fields@.len() > 0,
            texts_nodup(old(row_set)@),
        ensures
            ({
                let res = spec_table_rows(self.pages@, num as int - 1, self.pages@.len() as nat);
                let predv = pred_view(*predicate);
                let fieldsv = fields_view(fields@);
                match r {
                    Ok(_) => {
                        &&& res matches Ok(rows)
                        &&& spec_project_all_ok(rows, predv, fieldsv)
                        &&& texts_nodup(final(row_set)@)
                        &&& texts(final(row_set)@) == texts(old(row_set)@).union(
                            spec_projected_texts(rows, predv, fieldsv),
                        )
                    },
                    Err(e) => res == Err::<Seq<(i64, Seq<ColumnView>)>, DbError>(e) || (
                    res matches Ok(rows) && !spec_project_all_ok(rows, predv, fieldsv) && e
                        == DbError::OutOfRangeRead),
                }
            }),
    {
        let mut rows: Vec<(i64, Record)> = Vec::new();
        match collect_table_rows(&self.pages, (num - 1) as u64, self.pages.len() as u64, &mut rows)
        {
            Ok(_) => {},
            Err(e) => {
                return Err(e);
            },
        }
        proof {
            let grows = spec_table_rows(
                self.pages@,
                num as int - 1,
                self.pages@.len() as nat,
            )->Ok_0;
            assert(rows_view(Seq::<(i64, Record)>::empty()) =~= Seq::<
                (i64, Seq<ColumnView>),
            >::empty());
            assert(Seq::<(i64, Seq<ColumnView>)>::empty() + grows =~= grows);
            assert(rows_view(rows@) == grows);
        }
        project_rows(&rows, predicate, fields, row_set)
    }

    /// Scan the table tree rooted at page number `num`, pruned by the
    /// strictly sorted rowid list `ids`, and add each kept row's projection
    /// to the deduplicated row set.
    pub fn read_ids_from_table(
        &self,
        num: usize,
        fields: &Vec<(usize, String)>,
        row_set: &mut Vec<String>,
        ids: &Vec<i64>,
    ) -> (r: Result<(), DbError>)
        requires
            num >= 1,
            fields@.len() > 0,
            sorted_strict(ids@),
            texts_nodup(old(row_set)@),
        ensures
            ({
                let res = spec_ids_rows(
                    self.pages@,
                    num as int - 1,
                    ids@,
                    self.pages@.len() as nat,
                );
                let predv = Option::<(usize, Seq<char>)>::None;
                let fieldsv = fields_view(fields@);
                match r {
                    Ok(_) => {
                        &&& res matches Ok(rows)
                        &&& spec_project_all_ok(rows, predv, fieldsv)
                        &&& texts_nodup(final(row_set)@)
                        &&& texts(final(row_set)@) == texts(old(row_set)@).union(
                            spec_projected_texts(rows, predv, fieldsv),
                        )
                    },
                    Err(e) => res == Err::<Seq<(i64, Seq<ColumnView>)>, DbError>(e) || (
                    res matches Ok(rows) && !spec_project_all_ok(rows, predv, fieldsv) && e
                        == DbError::OutOfRangeRead),
                }
            }),
    {
        let mut rows: Vec<(i64, Record)> = Vec::new();
        match collect_ids_rows(
            &self.pages,
            (num - 1) as u64,
            ids,
            self.pages.len() as u64,
            &mut rows,
        ) {
            Ok(_) => {},
            Err(e) => {
                return Err(e);
            },
        }
        proof {
            let grows = spec_ids_rows(
                self.pages@,
                num as int - 1,
                ids@,
                self.pages@.len() as nat,
            )->Ok_0;
            assert(rows_view(Seq::<(i64, Record)>::empty()) =~= Seq::<
                (i64, Seq<ColumnView>),
            >::empty());
            assert(Seq::<(i64, Seq<ColumnView>)>::empty() + grows =~= grows);
            assert(rows_view(rows@) == grows);
        }
        let no_pred: Option<(usize, String)> = None;
        project_rows(&rows, &no_pred, fields, row_set)
    }

    /// Search the index tree rooted at page number `num` for the entries
    /// whose key equals the query's literal, and gather the matching table
    /// rowids into the sorted set `rowids`.
    pub fn read_index(
        &self,
        num: usize,
        _index_statement: &Sql,
        select_statement: &Sql,
        rowids: &mut Vec<i64>,
    ) -> (r: Result<(), DbError>)
        requires
            num >= 1,
            select_statement.selection@.len() >= 1,
            sorted_strict(old(rowids)@),
        ensures
            ({
                let res = spec_index_rowids(
                    self.pages@,
                    num as int - 1,
                    vstd::utf8::encode_utf8(select_statement.selection@[0].1@),
                    self.pages@.len() as nat,
                );
                match r {
                    Ok(_) => {
                        &&& res matches Ok(found)
                        &&& sorted_strict(final(rowids)@)
                        &&& idset(final(rowids)@) == idset(old(rowids)@).union(idset(found))
                    },
                    Err(e) => res == Err::<Seq<i64>, DbError>(e),
                }
            }),
    {
        let key = &select_statement.selection[0].1;
        search_index(&self.pages, (num - 1) as u64, key, self.pages.len() as u64, rowids)
    }
}

/// Apply the predicate to each collected row and add each passing row's
/// projection to the deduplicated row set.
fn project_rows(
    rows: &Vec<(i64, Record)>,
    predicate: &Option<(usize, String)>,
    fields: &Vec<(usize, String)>,
    row_set: &mut Vec<String>,
) -> (r: Result<(), DbError>)
    requires
        fields@.len() > 0,
        texts_nodup(old(row_set)@),
    ensures
        ({
            let grows = rows_view(rows@);
            let predv = pred_view(*predicate);
            let fieldsv = fields_view(fields@);
            match r {
                Ok(_) => {
                    &&& spec_project_all_ok(grows, predv, fieldsv)
                    &&& texts_nodup(final(row_set)@)
                    &&& texts(final(row_set)@) == texts(old(row_set)@).union(
                        spec_projected_texts(grows, predv, fieldsv),
                    )
                },
                Err(e) => !spec_project_all_ok(grows, predv, fieldsv) && e
                    == DbError::OutOfRangeRead,
            }
        }),
{
    let ghost grows = rows_view(rows@);
    let ghost predv = pred_view(*predicate);
    let ghost fieldsv = fields_view(fields@);
    let mut k: usize = 0;
    proof {
        assert(grows.take(0) =~= Seq::<(i64, Seq<ColumnView>)>::empty());
        assert(texts(row_set@) =~= texts(old(row_set)@).union(
            spec_projected_texts(grows.take(0), predv, fieldsv),
        ));
    }
    while k < rows.len()
        invariant
            0 <= k <= rows@.len(),
            grows == rows_view(rows@),
            fields@.len() > 0,
            predv == pred_view(*predicate),
            fieldsv == fields_view(fields@),
            texts_nodup(row_set@),
            spec_project_all_ok(grows.take(k as int), predv, fieldsv),
            texts(row_set@) == texts(old(row_set)@).union(
                spec_projected_texts(grows.take(k as int), predv, fieldsv),
            ),
        decreases rows@.len() - k,
    {
        let rowid = rows[k].0;
        let record = &rows[k].1;
        proof {
            assert(grows[k as int] == (rows@[k as int].0, rows@[k as int].1@));
        }
        match apply_row(predicate, rowid, record, fields, row_set) {
            Ok(_) => {},
            Err(e) => {
                proof {
                    assert(!spec_project_all_ok(grows, predv, fieldsv));
                }
                return Err(e);
            },
        }
        proof {
            assert(grows.take(k as int + 1).drop_last() =~= grows.take(k as int));
            assert(grows.take(k as int + 1).last() == grows[k as int]);
            if spec_pred_holds(predv, grows[k as int].1) {
                assert(texts(row_set@) =~= texts(old(row_set)@).union(
                    spec_projected_texts(grows.take(k as int + 1), predv, fieldsv),
                ));
            } else {
                assert(spec_projected_texts(grows.take(k as int + 1), predv, fieldsv)
                    == spec_projected_texts(grows.take(k as int), predv, fieldsv));
            }
            assert(forall|m: int|
                0 <= m < k + 1 ==> #[trigger] grows.take(k as int + 1)[m] == grows[m]);
        }
        k = k + 1;
    }
    proof {
        assert(grows.take(rows@.len() as int) =~= grows);
    }
    Ok(())
}

} // verus!
