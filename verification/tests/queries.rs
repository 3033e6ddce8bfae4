use rust_sqlite::column::{Column, SerialType, SerialValue};
use rust_sqlite::error::DbError;
use rust_sqlite::record::Record;
use rust_sqlite::sql::Sql;

fn sql_with(fields: &[&str], selection: Vec<(String, String)>) -> Sql {
    Sql {
        index_name: None,
        field_name: fields.iter().map(|f| f.to_string()).collect(),
        selection,
        tbl_name: "t".to_string(),
        index_column: None,
    }
}

fn text_record(values: &[&str]) -> Record {
    Record {
        columns: values
            .iter()
            .map(|v| {
                Column::new(
                    SerialType::String(v.len()),
                    SerialValue::String(v.to_string()),
                )
            })
            .collect(),
    }
}

#[test]
fn test_get_fields_resolves_positions() {
    let create = sql_with(&["id", "name", "color"], vec![]);
    let select = sql_with(&["color", "name", "taste"], vec![]);
    let fields = select.get_fields(&create);
    // a name the table does not declare resolves to position 0
    assert_eq!(
        fields,
        vec![
            (2, "color".to_string()),
            (1, "name".to_string()),
            (0, "taste".to_string())
        ]
    );
}

#[test]
fn test_predicate_resolution() {
    let create = sql_with(&["id", "name", "color"], vec![]);
    let select = sql_with(&["name"], vec![("color".to_string(), "Red".to_string())]);
    assert_eq!(select.predicate(&create), Some((2, "Red".to_string())));
    let bare = sql_with(&["name"], vec![]);
    assert_eq!(bare.predicate(&create), None);
}

#[test]
fn test_print_rows_applies_predicate() {
    let select = sql_with(&["name"], vec![("color".to_string(), "Red".to_string())]);
    let fields = vec![(1usize, "name".to_string())];
    let mut row_set: Vec<String> = Vec::new();
    let matching = text_record(&["x", "Fuji", "Red"]);
    let other = text_record(&["x", "Kiwi", "Green"]);
    select
        .print_rows(&matching, &Some(2), 2, &fields, &mut row_set)
        .unwrap();
    select
        .print_rows(&other, &Some(3), 2, &fields, &mut row_set)
        .unwrap();
    assert_eq!(row_set, vec!["Fuji".to_string()]);
}

#[test]
fn test_print_rows_by_rowid_dedups() {
    let select = sql_with(&["name"], vec![]);
    let fields = vec![(1usize, "name".to_string())];
    let mut row_set: Vec<String> = Vec::new();
    let rec = text_record(&["x", "Fuji"]);
    select
        .print_rows_by_rowid(&rec, &Some(1), &fields, &mut row_set)
        .unwrap();
    select
        .print_rows_by_rowid(&rec, &Some(1), &fields, &mut row_set)
        .unwrap();
    assert_eq!(row_set, vec!["Fuji".to_string()]);
}

#[test]
fn test_print_row_id_collects_match() {
    let select = sql_with(&[], vec![("color".to_string(), "Red".to_string())]);
    let entry = Record {
        columns: vec![
            Column::new(SerialType::String(3), SerialValue::String("Red".to_string())),
            Column::new(SerialType::I16, SerialValue::I16(42)),
        ],
    };
    let mut rowids: Vec<i64> = Vec::new();
    select
        .print_row_id(Some(entry), &select, &mut rowids)
        .unwrap();
    assert_eq!(rowids, vec![42]);

    let miss = Record {
        columns: vec![
            Column::new(SerialType::String(4), SerialValue::String("Blue".to_string())),
            Column::new(SerialType::I16, SerialValue::I16(7)),
        ],
    };
    select
        .print_row_id(Some(miss), &select, &mut rowids)
        .unwrap();
    assert_eq!(rowids, vec![42]);
}

#[test]
fn test_print_row_id_rejects_text_rowid() {
    let select = sql_with(&[], vec![("color".to_string(), "Red".to_string())]);
    let entry = Record {
        columns: vec![
            Column::new(SerialType::String(3), SerialValue::String("Red".to_string())),
            Column::new(SerialType::String(1), SerialValue::String("x".to_string())),
        ],
    };
    let mut rowids: Vec<i64> = Vec::new();
    assert_eq!(
        select.print_row_id(Some(entry), &select, &mut rowids),
        Err(DbError::InvalidSerialType)
    );
}
