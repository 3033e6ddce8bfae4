//! The already-parsed query shape and the row projection it drives: field
//! resolution against a table's declared column order, the single equality
//! predicate, pipe-delimited row text, and the deduplicated result set.
use vstd::prelude::*;

use crate::column::{value_text, ColumnView, SerialValue, ValueView};
use crate::error::DbError;
use crate::record::Record;
use crate::text::{dec_str, i64_to_string};

verus! {

/// A query shape, as the SQL-parsing collaborator resolves it: a table
/// name, the selected field names, and at most one (field, literal)
/// equality in `selection`.
#[derive(Debug)]
pub struct Sql {
    pub index_name: Option<Vec<String>>,
    pub field_name: Vec<String>,
    pub selection: Vec<(String, String)>,
    pub tbl_name: String,
    pub index_column: Option<Vec<String>>,
}

/// The views of a name list.
pub open spec fn names_view(names: Seq<String>) -> Seq<Seq<char>> {
    names.map_values(|s: String| s@)
}

/// The first position of `name` in `names`, or 0 when it is absent.
pub open spec fn spec_field_index(names: Seq<Seq<char>>, name: Seq<char>) -> int {
    spec_field_index_from(names, name, 0)
}

pub open spec fn spec_field_index_from(names: Seq<Seq<char>>, name: Seq<char>, i: int) -> int
    recommends
        0 <= i,
    decreases (if names.len() - i > 0 { names.len() - i } else { 0 }),
{
    if i < 0 || i >= names.len() {
        0
    } else if names[i] == name {
        i
    } else {
        spec_field_index_from(names, name, i + 1)
    }
}

/// Whether two strings hold the same characters.
pub(crate) fn str_eq(a: &String, b: &String) -> (r: bool)
    ensures
        r == (a@ == b@),
{
    a.eq(b)
}

/// The first position of `name` in `names`, or 0 when it is absent.
fn field_index(names: &Vec<String>, name: &String) -> (r: usize)
    ensures
        r == spec_field_index(names_view(names@), name@),
{
    let mut j: usize = 0;
    while j < names.len()
        invariant
            0 <= j <= names@.len(),
            spec_field_index_from(names_view(names@), name@, 0) == spec_field_index_from(
                names_view(names@),
                name@,
                j as int,
            ),
        decreases names@.len() - j,
    {
        if str_eq(&names[j], name) {
            return j;
        }
        j = j + 1;
    }
    0
}

impl Sql {
    /// Resolve each selected field name to its position in the table's
    /// declared column order; a name the table does not declare resolves to
    /// position 0.
    pub fn get_fields(&self, create_statement: &Sql) -> (r: Vec<(usize, String)>)
        ensures
            r@.len() == self.field_name@.len(),
            forall|j: int|
                0 <= j < r@.len() ==> (#[trigger] r@[j]).1 == self.field_name@[j] && r@[j].0
                    == spec_field_index(
                    names_view(create_statement.field_name@),
                    self.field_name@[j]@,
                ),
    {
        let mut r: Vec<(usize, String)> = Vec::new();
        let mut j: usize = 0;
        while j < self.field_name.len()
            invariant
                0 <= j <= self.field_name@.len(),
                r@.len() == j,
                forall|m: int|
                    0 <= m < j ==> (#[trigger] r@[m]).1 == self.field_name@[m] && r@[m].0
                        == spec_field_index(
                        names_view(create_statement.field_name@),
                        self.field_name@[m]@,
                    ),
            decreases self.field_name@.len() - j,
        {
            let name = self.field_name[j].clone();
            let idx = field_index(&create_statement.field_name, &name);
            r.push((idx, name));
            j = j + 1;
        }
        r
    }

    /// Resolve the single equality predicate, when one is present, to the
    /// predicate column's position and the literal it must equal.
    pub fn predicate(&self, create_statement: &Sql) -> (r: Option<(usize, String)>)
        ensures
            self.selection@.len() == 0 ==> r is None,
            self.selection@.len() > 0 ==> (r matches Some(p) && p.0 == spec_field_index(
                names_view(create_statement.field_name@),
                self.selection@[0].0@,
            ) && p.1@ == self.selection@[0].1@),
    {
        if self.selection.len() == 0 {
            return None;
        }
        let key = &self.selection[0].0;
        let value = self.selection[0].1.clone();
        let idx = field_index(&create_statement.field_name, key);
        Some((idx, value))
    }
}

/// The view of a resolved predicate.
pub open spec fn pred_view(p: Option<(usize, String)>) -> Option<(usize, Seq<char>)> {
    match p {
        Some(q) => Some((q.0, q.1@)),
        None => None,
    }
}

/// The view of a resolved field list.
pub open spec fn fields_view(fields: Seq<(usize, String)>) -> Seq<(usize, Seq<char>)> {
    fields.map_values(|f: (usize, String)| (f.0, f.1@))
}

/// Whether the predicate selects this row: with no predicate every row
/// passes; otherwise the predicate column must exist, hold text, and equal
/// the literal.
pub open spec fn spec_pred_holds(pred: Option<(usize, Seq<char>)>, cols: Seq<ColumnView>) -> bool {
    match pred {
        None => true,
        Some(p) => p.0 < cols.len() && (cols[p.0 as int].data matches ValueView::String(t) && t
            == p.1),
    }
}

/// Every projected field position of the row exists; position 0 stands for
/// the rowid and needs no column.
pub open spec fn spec_fields_ok(cols: Seq<ColumnView>, fields: Seq<(usize, Seq<char>)>) -> bool {
    forall|j: int| 0 <= j < fields.len() ==> (#[trigger] fields[j]).0 == 0 || fields[j].0
        < cols.len()
}

/// The given parts joined with `|` between them.
pub open spec fn spec_join_pipe(parts: Seq<Seq<char>>) -> Seq<char>
    decreases parts.len(),
{
    if parts.len() == 0 {
        Seq::empty()
    } else if parts.len() == 1 {
        parts[0]
    } else {
        spec_join_pipe(parts.drop_last()) + seq!['|'] + parts.last()
    }
}

/// One projected part: the empty string for field position 0, else the
/// column's text form.
pub open spec fn spec_part(cols: Seq<ColumnView>, f: (usize, Seq<char>)) -> Seq<char> {
    if f.0 == 0 {
        Seq::empty()
    } else {
        value_text(cols[f.0 as int].data)
    }
}

/// The pipe-joined text of one projected row; when the first selected field
/// is position 0, the rowid's digits are prepended.
pub open spec fn spec_row_text(
    rowid: i64,
    cols: Seq<ColumnView>,
    fields: Seq<(usize, Seq<char>)>,
) -> Seq<char>
    recommends
        fields.len() > 0,
{
    let joined = spec_join_pipe(fields.map_values(|f: (usize, Seq<char>)| spec_part(cols, f)));
    if fields[0].0 == 0 {
        dec_str(rowid as int) + joined
    } else {
        joined
    }
}

/// The texts held in a row set.
pub open spec fn texts(v: Seq<String>) -> Set<Seq<char>> {
    Set::new(|t: Seq<char>| exists|k: int| 0 <= k < v.len() && (#[trigger] v[k])@ == t)
}

/// No two entries of the row set hold the same text.
pub open spec fn texts_nodup(v: Seq<String>) -> bool {
    forall|k1: int, k2: int| 0 <= k1 < k2 < v.len() ==> (#[trigger] v[k1])@ != (#[trigger] v[k2])@
}

/// The projected texts of the rows that pass the predicate.
pub open spec fn spec_projected_texts(
    rows: Seq<(i64, Seq<ColumnView>)>,
    pred: Option<(usize, Seq<char>)>,
    fields: Seq<(usize, Seq<char>)>,
) -> Set<Seq<char>>
    decreases rows.len(),
{
    if rows.len() == 0 {
        Set::empty()
    } else {
        let rest = spec_projected_texts(rows.drop_last(), pred, fields);
        if spec_pred_holds(pred, rows.last().1) {
            rest.insert(spec_row_text(rows.last().0, rows.last().1, fields))
        } else {
            rest
        }
    }
}

/// Every row that passes the predicate can be projected.
pub open spec fn spec_project_all_ok(
    rows: Seq<(i64, Seq<ColumnView>)>,
    pred: Option<(usize, Seq<char>)>,
    fields: Seq<(usize, Seq<char>)>,
) -> bool {
    forall|k: int|
        0 <= k < rows.len() && spec_pred_holds(pred, (#[trigger] rows[k]).1) ==> spec_fields_ok(
            rows[k].1,
            fields,
        )
}

/// Join the given parts with `|` between them.
fn join_pipe(parts: &Vec<String>) -> (s: String)
    ensures
        s@ == spec_join_pipe(parts@.map_values(|p: String| p@)),
{
    let ghost partsv = parts@.map_values(|p: String| p@);
    let mut s = String::new();
    if parts.len() == 0 {
        proof {
            assert(partsv.len() == 0);
        }
        return s;
    }
    s = parts[0].clone();
    let mut k: usize = 1;
    proof {
        assert(partsv.take(1) =~= seq![partsv[0]]);
    }
    while k < parts.len()
        invariant
            1 <= k <= parts@.len(),
            partsv == parts@.map_values(|p: String| p@),
            s@ == spec_join_pipe(partsv.take(k as int)),
        decreases parts@.len() - k,
    {
        s.append("|");
        s.append(parts[k].as_str());
        proof {
            reveal_strlit("|");
            assert("|"@ =~= seq!['|']);
            assert(partsv.take(k as int + 1).drop_last() =~= partsv.take(k as int));
            assert(partsv.take(k as int + 1).last() == partsv[k as int]);
        }
        k = k + 1;
    }
    proof {
        assert(partsv.take(partsv.len() as int) =~= partsv);
    }
    s
}

/// Render one row: one part per selected field, joined with `|`, the rowid
/// prepended when the first field is position 0.  Fails exactly when some
/// field position points past the row's columns.
pub(crate) fn project_row(rowid: i64, record: &Record, fields: &Vec<(usize, String)>) -> (r:
    Result<String, DbError>)
    requires
        fields@.len() > 0,
    ensures
        match r {
            Ok(s) => spec_fields_ok(record@, fields_view(fields@)) && s@ == spec_row_text(
                rowid,
                record@,
                fields_view(fields@),
            ),
            Err(e) => e == DbError::OutOfRangeRead && !spec_fields_ok(
                record@,
                fields_view(fields@),
            ),
        },
{
    let ghost fv = fields_view(fields@);
    let mut parts: Vec<String> = Vec::new();
    let mut j: usize = 0;
    while j < fields.len()
        invariant
            0 <= j <= fields@.len(),
            fv == fields_view(fields@),
            parts@.len() == j,
            forall|m: int| 0 <= m < j ==> (#[trigger] fv[m]).0 == 0 || fv[m].0 < record@.len(),
            forall|m: int| 0 <= m < j ==> (#[trigger] parts@[m])@ == spec_part(record@, fv[m]),
        decreases fields@.len() - j,
    {
        let fi = fields[j].0;
        if fi == 0 {
            parts.push(String::new());
        } else {
            if fi >= record.columns.len() {
                proof {
                    assert(fv[j as int].0 == fields@[j as int].0);
                    assert(!(fv[j as int].0 == 0 || fv[j as int].0 < record@.len()));
                }
                return Err(DbError::OutOfRangeRead);
            }
            parts.push(record.columns[fi].data().display());
        }
        j = j + 1;
    }
    let joined = join_pipe(&parts);
    proof {
        assert(parts@.map_values(|p: String| p@) =~= fv.map_values(
            |f: (usize, Seq<char>)| spec_part(record@, f),
        ));
    }
    if fields[0].0 == 0 {
        let mut s = i64_to_string(rowid);
        s.append(joined.as_str());
        Ok(s)
    } else {
        Ok(joined)
    }
}

/// Insert a rendered row into the set unless its text is already present.
pub(crate) fn insert_row_text(row_set: &mut Vec<String>, s: String)
    requires
        texts_nodup(old(row_set)@),
    ensures
        texts_nodup(final(row_set)@),
        texts(final(row_set)@) == texts(old(row_set)@).insert(s@),
{
    let mut k: usize = 0;
    while k < row_set.len()
        invariant
            0 <= k <= row_set@.len(),
            row_set@ == old(row_set)@,
            texts_nodup(row_set@),
            forall|m: int| 0 <= m < k ==> (#[trigger] row_set@[m])@ != s@,
        decreases row_set@.len() - k,
    {
        if str_eq(&row_set[k], &s) {
            proof {
                assert(texts(row_set@).contains(s@));
                assert(texts(row_set@) =~= texts(old(row_set)@).insert(s@));
            }
            return ;
        }
        k = k + 1;
    }
    let ghost prev = row_set@;
    row_set.push(s);
    proof {
        assert(forall|m: int| 0 <= m < prev.len() ==> row_set@[m] == prev[m]);
        assert forall|t: Seq<char>| texts(row_set@).contains(t) implies texts(prev).insert(
            s@,
        ).contains(t) by {
            let k = choose|k: int| 0 <= k < row_set@.len() && row_set@[k]@ == t;
            if k < prev.len() {
                assert(texts(prev).contains(t));
            }
        }
        assert forall|t: Seq<char>| texts(prev).insert(s@).contains(t) implies texts(
            row_set@,
        ).contains(t) by {
            if t == s@ {
                assert(row_set@[prev.len() as int]@ == t);
            } else {
                let k = choose|k: int| 0 <= k < prev.len() && prev[k]@ == t;
                assert(row_set@[k]@ == t);
            }
        }
        assert(texts(row_set@) =~= texts(prev).insert(s@));
    }
}

/// Apply the predicate to one leaf row and, when it passes, add the row's
/// rendered text to the set.
pub(crate) fn apply_row(
    pred: &Option<(usize, String)>,
    rowid: i64,
    record: &Record,
    fields: &Vec<(usize, String)>,
    row_set: &mut Vec<String>,
) -> (r: Result<(), DbError>)
    requires
        fields@.len() > 0,
        texts_nodup(old(row_set)@),
    ensures
        match r {
            Ok(_) => {
                &&& texts_nodup(final(row_set)@)
                &&& (spec_pred_holds(pred_view(*pred), record@) ==> spec_fields_ok(
                    record@,
                    fields_view(fields@),
                ) && texts(final(row_set)@) == texts(old(row_set)@).insert(
                    spec_row_text(rowid, record@, fields_view(fields@)),
                ))
                &&& (!spec_pred_holds(pred_view(*pred), record@) ==> final(row_set)@ == old(
                    row_set,
                )@)
            },
            Err(e) => {
                &&& e == DbError::OutOfRangeRead
                &&& spec_pred_holds(pred_view(*pred), record@)
                &&& !spec_fields_ok(record@, fields_view(fields@))
            },
        },
{
    let passes: bool = match pred {
        None => true,
        Some(p) => {
            if p.0 >= record.columns.len() {
                false
            } else {
                match record.columns[p.0].data() {
                    SerialValue::String(t) => str_eq(t, &p.1),
                    _ => false,
                }
            }
        },
    };
    if !passes {
        return Ok(());
    }
    let s = match project_row(rowid, record, fields) {
        Ok(s) => s,
        Err(e) => {
            return Err(e);
        },
    };
    insert_row_text(row_set, s);
    Ok(())
}

impl Sql {
    /// Apply this query's single equality predicate to one record and, when
    /// it matches, add the rendered projection to the row set.  The
    /// predicate column's resolved position is `pred_col`; its literal is
    /// the selection's value.
    pub fn print_rows(
        &self,
        record: &Record,
        rowid: &Option<i64>,
        pred_col: usize,
        fields: &Vec<(usize, String)>,
        row_set: &mut Vec<String>,
    ) -> (r: Result<(), DbError>)
        requires
            self.selection@.len() == 1,
            fields@.len() > 0,
            rowid is Some,
            texts_nodup(old(row_set)@),
        ensures
            ({
                let pred = Some((pred_col, self.selection@[0].1@));
                match r {
                    Ok(_) => {
                        &&& texts_nodup(final(row_set)@)
                        &&& (spec_pred_holds(pred, record@) ==> texts(final(row_set)@) == texts(
                            old(row_set)@,
                        ).insert(spec_row_text(rowid->0, record@, fields_view(fields@))))
                        &&& (!spec_pred_holds(pred, record@) ==> final(row_set)@ == old(row_set)@)
                    },
                    Err(e) => {
                        &&& e == DbError::OutOfRangeRead
                        &&& spec_pred_holds(pred, record@)
                        &&& !spec_fields_ok(record@, fields_view(fields@))
                    },
                }
            }),
    {
        let pred = Some((pred_col, self.selection[0].1.clone()));
        let id = match rowid {
            Some(id) => *id,
            None => vstd::pervasive::unreached(),
        };
        apply_row(&pred, id, record, fields, row_set)
    }

    /// Add one record's rendered projection to the row set, with no
    /// predicate applied.
    pub fn print_rows_by_rowid(
        &self,
        record: &Record,
        rowid: &Option<i64>,
        fields: &Vec<(usize, String)>,
        row_set: &mut Vec<String>,
    ) -> (r: Result<(), DbError>)
        requires
            fields@.len() > 0,
            rowid is Some,
            texts_nodup(old(row_set)@),
        ensures
            match r {
                Ok(_) => {
                    &&& texts_nodup(final(row_set)@)
                    &&& texts(final(row_set)@) == texts(old(row_set)@).insert(
                        spec_row_text(rowid->0, record@, fields_view(fields@)),
                    )
                },
                Err(e) => e == DbError::OutOfRangeRead && !spec_fields_ok(
                    record@,
                    fields_view(fields@),
                ),
            },
    {
        let id = match rowid {
            Some(id) => *id,
            None => vstd::pervasive::unreached(),
        };
        let s = match project_row(id, record, fields) {
            Ok(s) => s,
            Err(e) => {
                return Err(e);
            },
        };
        insert_row_text(row_set, s);
        Ok(())
    }

    /// Record an index entry's table rowid when the entry's key column
    /// equals the query's literal: the leading column is the key, the next
    /// column the rowid.
    pub fn print_row_id(
        &self,
        record: Option<Record>,
        select_statement: &Sql,
        rowids: &mut Vec<i64>,
    ) -> (r: Result<(), DbError>)
        requires
            select_statement.selection@.len() >= 1,
        ensures
            match r {
                Ok(_) => ({
                    let added = spec_index_entry_match(
                        match record {
                            Some(rec) => Some(rec@),
                            None => None,
                        },
                        select_statement.selection@[0].1@,
                    );
                    match added {
                        Some(id) => final(rowids)@ == old(rowids)@.push(id),
                        None => final(rowids)@ == old(rowids)@,
                    }
                }),
                Err(e) => ({
                    // only an entry whose key matches but whose rowid column
                    // is unusable fails
                    &&& record matches Some(rec)
                    &&& rec@.len() >= 1
                    &&& (rec@[0].data matches ValueView::String(t) && t
                        == select_statement.selection@[0].1@)
                    &&& (if rec@.len() < 2 {
                        e == DbError::OutOfRangeRead
                    } else {
                        spec_int_value(rec@[1].data) is None && e == DbError::InvalidSerialType
                    })
                }),
            },
    {
        let rec = match record {
            Some(rec) => rec,
            None => {
                return Ok(());
            },
        };
        let matched: bool = if rec.columns.len() == 0 {
            false
        } else {
            match rec.columns[0].data() {
                SerialValue::String(t) => str_eq(t, &select_statement.selection[0].1),
                _ => false,
            }
        };
        if !matched {
            return Ok(());
        }
        if rec.columns.len() < 2 {
            return Err(DbError::OutOfRangeRead);
        }
        let id = match int_column_value(&rec, 1) {
            Some(id) => id,
            None => {
                return Err(DbError::InvalidSerialType);
            },
        };
        rowids.push(id);
        Ok(())
    }
}

/// The table rowid an index entry contributes for the given key, when its
/// leading column is text equal to the key and its second column holds an
/// integer.
pub open spec fn spec_index_entry_match(record: Option<Seq<ColumnView>>, key: Seq<char>) -> Option<
    i64,
> {
    match record {
        None => None,
        Some(cols) => {
            if cols.len() >= 2 && (cols[0].data matches ValueView::String(t) && t == key) {
                spec_int_value(cols[1].data)
            } else {
                None
            }
        },
    }
}

/// The integer a column value holds, for the integer storage classes.
pub open spec fn spec_int_value(v: ValueView) -> Option<i64> {
    match v {
        ValueView::I8(x) => Some(x as i64),
        ValueView::I16(x) => Some(x as i64),
        ValueView::I24(x) => Some(x as i64),
        ValueView::I32(x) => Some(x as i64),
        ValueView::I48(x) => Some(x),
        ValueView::I64(x) => Some(x),
        ValueView::Zero => Some(0),
        ValueView::One => Some(1),
        _ => None,
    }
}

/// The integer held by the record's column at `j`, when that column has an
/// integer storage class.
pub(crate) fn int_column_value(record: &Record, j: usize) -> (r: Option<i64>)
    requires
        j < record@.len(),
    ensures
        r == spec_int_value(record@[j as int].data),
{
    match record.columns[j].data() {
        SerialValue::I8(x) => Some(*x as i64),
        SerialValue::I16(x) => Some(*x as i64),
        SerialValue::I24(x) => Some(*x as i64),
        SerialValue::I32(x) => Some(*x as i64),
        SerialValue::I48(x) => Some(*x),
        SerialValue::I64(x) => Some(*x),
        SerialValue::Zero => Some(0),
        SerialValue::One => Some(1),
        _ => None,
    }
}

} // verus!
