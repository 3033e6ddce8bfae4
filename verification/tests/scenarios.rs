use rust_sqlite::database::Database;
use rust_sqlite::error::DbError;
use rust_sqlite::page::PageType;
use rust_sqlite::sql::Sql;

fn enc_varint(v: u64) -> Vec<u8> {
    let mut rest = v / 128;
    let mut out = vec![(v % 128) as u8];
    while rest > 0 {
        out.push(0x80 | (rest % 128) as u8);
        rest /= 128;
    }
    out.reverse();
    out
}

fn record_payload(cols: &[(u64, Vec<u8>)]) -> Vec<u8> {
    let mut header = Vec::new();
    for (code, _) in cols {
        header.extend(enc_varint(*code));
    }
    let hlen = header.len() + 1;
    assert!(hlen < 128);
    let mut out = vec![hlen as u8];
    out.extend(header);
    for (_, bytes) in cols {
        out.extend(bytes.clone());
    }
    out
}

fn text_col(s: &str) -> (u64, Vec<u8>) {
    ((13 + 2 * s.len()) as u64, s.as_bytes().to_vec())
}

fn i8_col(v: i8) -> (u64, Vec<u8>) {
    (1, vec![v as u8])
}

fn null_col() -> (u64, Vec<u8>) {
    (0, vec![])
}

const PAGE: usize = 4096;

fn file_header(page_size: u16) -> Vec<u8> {
    let mut h = vec![0u8; 100];
    h[..16].copy_from_slice(b"SQLite format 3\0");
    h[16..18].copy_from_slice(&page_size.to_be_bytes());
    h
}

/// A leaf table page: each cell is payload-size varint, rowid varint, then
/// the record payload.  With `first` set, the 100-byte file header opens
/// the page and the b-tree header follows it.
fn leaf_table_page(cells: &[(i64, Vec<u8>)], first: bool) -> Vec<u8> {
    let hdr_off = if first { 100 } else { 0 };
    let mut page = vec![0u8; PAGE];
    if first {
        page[..100].copy_from_slice(&file_header(PAGE as u16));
    }
    let mut ptrs = Vec::new();
    let mut top = PAGE;
    for (rowid, payload) in cells {
        let mut cell = Vec::new();
        cell.extend(enc_varint(payload.len() as u64));
        cell.extend(enc_varint(*rowid as u64));
        cell.extend(payload.clone());
        top -= cell.len();
        page[top..top + cell.len()].copy_from_slice(&cell);
        ptrs.push(top as u16);
    }
    page[hdr_off] = 13;
    page[hdr_off + 3..hdr_off + 5].copy_from_slice(&(cells.len() as u16).to_be_bytes());
    page[hdr_off + 5..hdr_off + 7].copy_from_slice(&(top as u16).to_be_bytes());
    for (i, p) in ptrs.iter().enumerate() {
        page[hdr_off + 8 + 2 * i..hdr_off + 8 + 2 * i + 2].copy_from_slice(&p.to_be_bytes());
    }
    page
}

/// An interior table page: each cell is a 4-byte left-child page number and
/// a rowid-bound varint; the right-most child stands in the header.
fn interior_table_page(cells: &[(u32, i64)], rightmost: u32) -> Vec<u8> {
    let mut page = vec![0u8; PAGE];
    page[0] = 5;
    page[3..5].copy_from_slice(&(cells.len() as u16).to_be_bytes());
    page[8..12].copy_from_slice(&rightmost.to_be_bytes());
    let mut ptrs = Vec::new();
    let mut top = PAGE;
    for (child, rowid) in cells {
        let mut cell = Vec::new();
        cell.extend(child.to_be_bytes());
        cell.extend(enc_varint(*rowid as u64));
        top -= cell.len();
        page[top..top + cell.len()].copy_from_slice(&cell);
        ptrs.push(top as u16);
    }
    page[5..7].copy_from_slice(&(top as u16).to_be_bytes());
    for (i, p) in ptrs.iter().enumerate() {
        page[12 + 2 * i..12 + 2 * i + 2].copy_from_slice(&p.to_be_bytes());
    }
    page
}

/// A leaf index page: each cell is a payload-size varint and a record whose
/// columns are the key text and the table rowid.
fn leaf_index_page(entries: &[(&str, i8)]) -> Vec<u8> {
    let mut page = vec![0u8; PAGE];
    page[0] = 10;
    page[3..5].copy_from_slice(&(entries.len() as u16).to_be_bytes());
    let mut ptrs = Vec::new();
    let mut top = PAGE;
    for (key, rowid) in entries {
        let payload = record_payload(&[text_col(key), i8_col(*rowid)]);
        let mut cell = Vec::new();
        cell.extend(enc_varint(payload.len() as u64));
        cell.extend(payload);
        top -= cell.len();
        page[top..top + cell.len()].copy_from_slice(&cell);
        ptrs.push(top as u16);
    }
    page[5..7].copy_from_slice(&(top as u16).to_be_bytes());
    for (i, p) in ptrs.iter().enumerate() {
        page[8 + 2 * i..8 + 2 * i + 2].copy_from_slice(&p.to_be_bytes());
    }
    page
}

/// An interior index page: each cell is a 4-byte left-child page number, a
/// payload-size varint, and a separator record of key text and rowid.
fn interior_index_page(cells: &[(u32, &str, i8)], rightmost: u32) -> Vec<u8> {
    let mut page = vec![0u8; PAGE];
    page[0] = 2;
    page[3..5].copy_from_slice(&(cells.len() as u16).to_be_bytes());
    page[8..12].copy_from_slice(&rightmost.to_be_bytes());
    let mut ptrs = Vec::new();
    let mut top = PAGE;
    for (child, key, rowid) in cells {
        let payload = record_payload(&[text_col(key), i8_col(*rowid)]);
        let mut cell = Vec::new();
        cell.extend(child.to_be_bytes());
        cell.extend(enc_varint(payload.len() as u64));
        cell.extend(payload);
        top -= cell.len();
        page[top..top + cell.len()].copy_from_slice(&cell);
        ptrs.push(top as u16);
    }
    page[5..7].copy_from_slice(&(top as u16).to_be_bytes());
    for (i, p) in ptrs.iter().enumerate() {
        page[12 + 2 * i..12 + 2 * i + 2].copy_from_slice(&p.to_be_bytes());
    }
    page
}

fn schema_row(kind: &str, name: &str, tbl_name: &str, rootpage: i8, sql: &str) -> Vec<u8> {
    record_payload(&[
        text_col(kind),
        text_col(name),
        text_col(tbl_name),
        i8_col(rootpage),
        text_col(sql),
    ])
}

fn select_query(fields: &[&str], table: &str, pred: Option<(&str, &str)>) -> Sql {
    Sql {
        index_name: None,
        field_name: fields.iter().map(|f| f.to_string()).collect(),
        selection: match pred {
            Some((k, v)) => vec![(k.to_string(), v.to_string())],
            None => vec![],
        },
        tbl_name: table.to_string(),
        index_column: None,
    }
}

fn create_statement(fields: &[&str], table: &str) -> Sql {
    Sql {
        index_name: None,
        field_name: fields.iter().map(|f| f.to_string()).collect(),
        selection: vec![],
        tbl_name: table.to_string(),
        index_column: None,
    }
}

/// Scenario A: a 4096-byte-page file whose schema page holds three tables.
#[test]
fn test_open_three_table_schema() {
    let rows = vec![
        (1i64, schema_row("table", "apples", "apples", 2, "CREATE TABLE apples (id integer primary key, name text, color text)")),
        (2i64, schema_row("table", "oranges", "oranges", 3, "CREATE TABLE oranges (id integer primary key, name text)")),
        (3i64, schema_row("table", "cherries", "cherries", 4, "CREATE TABLE cherries (id integer primary key, name text)")),
    ];
    let file = leaf_table_page(&rows, true);
    let db = Database::from_bytes(file).unwrap();
    assert_eq!(db.page_size(), 4096);
    assert_eq!(db.pages[0].btree_header.ncells(), 3);
    assert_eq!(*db.pages[0].page_type(), PageType::LeafTable);
    assert_eq!(db.table_names().unwrap(), "apples oranges cherries ");
}

fn apples_db() -> Database {
    let schema = vec![
        (1i64, schema_row("table", "apples", "apples", 2, "CREATE TABLE apples (id integer primary key, name text, color text)")),
    ];
    let apples = vec![
        (1i64, record_payload(&[null_col(), text_col("Granny Smith"), text_col("Light Green")])),
        (2i64, record_payload(&[null_col(), text_col("Fuji"), text_col("Red")])),
        (3i64, record_payload(&[null_col(), text_col("Honeycrisp"), text_col("Blush Red")])),
        (4i64, record_payload(&[null_col(), text_col("Golden Delicious"), text_col("Yellow")])),
    ];
    let mut file = leaf_table_page(&schema, true);
    file.extend(leaf_table_page(&apples, false));
    Database::from_bytes(file).unwrap()
}

/// Scenario B: selecting `name` returns all four names; selecting
/// `name, color` where color is Yellow returns exactly one row.
#[test]
fn test_apples_select_name() {
    let db = apples_db();
    let create = create_statement(&["id", "name", "color"], "apples");
    let select = select_query(&["name"], "apples", None);
    let fields = select.get_fields(&create);
    assert_eq!(fields, vec![(1, "name".to_string())]);
    let pred = select.predicate(&create);
    assert_eq!(pred, None);
    let mut row_set: Vec<String> = Vec::new();
    db.read_table(2, &pred, &fields, &mut row_set).unwrap();
    let mut got = row_set.clone();
    got.sort();
    let mut expect = vec!["Granny Smith", "Fuji", "Honeycrisp", "Golden Delicious"];
    expect.sort();
    assert_eq!(got, expect);
}

#[test]
fn test_apples_select_with_predicate() {
    let db = apples_db();
    let create = create_statement(&["id", "name", "color"], "apples");
    let select = select_query(&["name", "color"], "apples", Some(("color", "Yellow")));
    let fields = select.get_fields(&create);
    assert_eq!(fields, vec![(1, "name".to_string()), (2, "color".to_string())]);
    let pred = select.predicate(&create);
    assert_eq!(pred, Some((2, "Yellow".to_string())));
    let mut row_set: Vec<String> = Vec::new();
    db.read_table(2, &pred, &fields, &mut row_set).unwrap();
    assert_eq!(row_set, vec!["Golden Delicious|Yellow".to_string()]);
}

#[test]
fn test_apples_rowid_projection() {
    let db = apples_db();
    let create = create_statement(&["id", "name", "color"], "apples");
    let select = select_query(&["id", "name"], "apples", None);
    let fields = select.get_fields(&create);
    let mut row_set: Vec<String> = Vec::new();
    db.read_table(2, &None, &fields, &mut row_set).unwrap();
    let mut got = row_set.clone();
    got.sort();
    let mut expect = vec!["1|Granny Smith", "2|Fuji", "3|Honeycrisp", "4|Golden Delicious"];
    expect.sort();
    assert_eq!(got, expect);
}

#[test]
fn test_apples_count() {
    let db = apples_db();
    assert_eq!(db.count_rows(2).unwrap(), 4);
}

/// A three-level-free multi-page table: one interior root over three
/// leaves, 108 rows in all, rowids 1 through 108.
fn heroes_db() -> Database {
    let schema = vec![
        (1i64, schema_row("table", "superheroes", "superheroes", 2, "CREATE TABLE superheroes (id integer primary key, name text)")),
    ];
    let mut leaves = Vec::new();
    for leaf in 0..3i64 {
        let mut cells = Vec::new();
        for k in 0..36i64 {
            let rowid = 36 * leaf + k + 1;
            let name = format!("hero{rowid}");
            cells.push((rowid, record_payload(&[null_col(), text_col(&name)])));
        }
        leaves.push(leaf_table_page(&cells, false));
    }
    // each separator bounds its left leaf strictly from everything after it
    let root = interior_table_page(&[(3, 37), (4, 73)], 5);
    let mut file = leaf_table_page(&schema, true);
    file.extend(root);
    for leaf in leaves {
        file.extend(leaf);
    }
    Database::from_bytes(file).unwrap()
}

/// Scenario C: the full unfiltered traversal reaches exactly 108 leaf
/// cells.
#[test]
fn test_superheroes_count() {
    let db = heroes_db();
    assert_eq!(db.count_rows(2).unwrap(), 108);
}

#[test]
fn test_superheroes_full_scan() {
    let db = heroes_db();
    let create = create_statement(&["id", "name"], "superheroes");
    let select = select_query(&["id", "name"], "superheroes", None);
    let fields = select.get_fields(&create);
    let mut row_set: Vec<String> = Vec::new();
    db.read_table(2, &None, &fields, &mut row_set).unwrap();
    assert_eq!(row_set.len(), 108);
    assert!(row_set.contains(&"1|hero1".to_string()));
    assert!(row_set.contains(&"37|hero37".to_string()));
    assert!(row_set.contains(&"108|hero108".to_string()));
}

/// Pruning agreement: for a sorted rowid subset, the pruned walk's result
/// set equals the unfiltered result set restricted to those rowids.
#[test]
fn test_read_ids_matches_filtered_scan() {
    let db = heroes_db();
    let create = create_statement(&["id", "name"], "superheroes");
    let select = select_query(&["id", "name"], "superheroes", None);
    let fields = select.get_fields(&create);

    let ids: Vec<i64> = vec![1, 5, 36, 37, 72, 73, 100, 108, 500];
    let mut pruned: Vec<String> = Vec::new();
    db.read_ids_from_table(2, &fields, &mut pruned, &ids).unwrap();

    let mut full: Vec<String> = Vec::new();
    db.read_table(2, &None, &fields, &mut full).unwrap();
    let mut expect: Vec<String> = full
        .into_iter()
        .filter(|row| {
            let id: i64 = row.split('|').next().unwrap().parse().unwrap();
            ids.binary_search(&id).is_ok()
        })
        .collect();
    expect.sort();
    pruned.sort();
    assert_eq!(pruned, expect);
    assert_eq!(pruned.len(), 8);
}

/// An index tree over sorted keys, duplicates included, spread over two
/// leaves and an interior root.
fn index_db() -> Database {
    let schema = vec![
        (1i64, schema_row("index", "idx_color", "apples", 2, "CREATE INDEX idx_color on apples (color)")),
    ];
    let leaf1 = leaf_index_page(&[("Blue", 1), ("Blue", 3), ("Green", 5)]);
    let leaf2 = leaf_index_page(&[("Green", 9), ("Pink", 11)]);
    let root = interior_index_page(&[(3, "Green", 7)], 4);
    let mut file = leaf_table_page(&schema, true);
    file.extend(root);
    file.extend(leaf1);
    file.extend(leaf2);
    Database::from_bytes(file).unwrap()
}

/// Index-search agreement: the search returns exactly the rowids whose
/// entry equals the key, as a brute force over all entries would.
#[test]
fn test_read_index_exact_matches() {
    let db = index_db();
    let entries: Vec<(&str, i64)> = vec![
        ("Blue", 1),
        ("Blue", 3),
        ("Green", 5),
        ("Green", 7),
        ("Green", 9),
        ("Pink", 11),
    ];
    for key in ["Blue", "Green", "Pink", "Red", ""] {
        let select = select_query(&["name"], "apples", Some(("color", key)));
        let index_stmt = create_statement(&["color"], "apples");
        let mut rowids: Vec<i64> = Vec::new();
        db.read_index(2, &index_stmt, &select, &mut rowids).unwrap();
        let mut expect: Vec<i64> = entries
            .iter()
            .filter(|(k, _)| *k == key)
            .map(|(_, id)| *id)
            .collect();
        expect.sort();
        assert_eq!(rowids, expect, "key {key}");
    }
}

/// The app's query path: an index search feeds the pruned table scan.
#[test]
fn test_index_search_feeds_pruned_scan() {
    let schema = vec![
        (1i64, schema_row("table", "apples", "apples", 2, "CREATE TABLE apples (id integer primary key, name text, color text)")),
        (2i64, schema_row("index", "idx_color", "apples", 3, "CREATE INDEX idx_color on apples (color)")),
    ];
    let apples = vec![
        (1i64, record_payload(&[null_col(), text_col("Granny Smith"), text_col("Light Green")])),
        (2i64, record_payload(&[null_col(), text_col("Fuji"), text_col("Red")])),
        (3i64, record_payload(&[null_col(), text_col("Honeycrisp"), text_col("Blush Red")])),
        (4i64, record_payload(&[null_col(), text_col("Red Delicious"), text_col("Red")])),
    ];
    // entries sorted by key: the index root is a single leaf
    let index_page = leaf_index_page(&[
        ("Blush Red", 3),
        ("Light Green", 1),
        ("Red", 2),
        ("Red", 4),
    ]);
    let mut file = leaf_table_page(&schema, true);
    file.extend(leaf_table_page(&apples, false));
    file.extend(index_page);
    let db = Database::from_bytes(file).unwrap();

    let create = create_statement(&["id", "name", "color"], "apples");
    let select = select_query(&["name"], "apples", Some(("color", "Red")));
    let index_stmt = create_statement(&["color"], "apples");
    let mut rowids: Vec<i64> = Vec::new();
    db.read_index(3, &index_stmt, &select, &mut rowids).unwrap();
    assert_eq!(rowids, vec![2, 4]);

    let fields = select.get_fields(&create);
    let mut row_set: Vec<String> = Vec::new();
    db.read_ids_from_table(2, &fields, &mut row_set, &rowids).unwrap();
    let mut got = row_set.clone();
    got.sort();
    assert_eq!(got, vec!["Fuji".to_string(), "Red Delicious".to_string()]);
}

#[test]
fn test_open_rejects_bad_magic() {
    let mut file = leaf_table_page(&[], true);
    file[0] = b'X';
    assert_eq!(Database::from_bytes(file), Err(DbError::FormatMismatch));
}

#[test]
fn test_open_rejects_bad_utf8_magic() {
    let mut file = leaf_table_page(&[], true);
    file[0] = 0xff;
    assert_eq!(Database::from_bytes(file), Err(DbError::Utf8DecodeError));
}

#[test]
fn test_open_rejects_short_file() {
    assert_eq!(Database::from_bytes(vec![0u8; 50]), Err(DbError::FormatMismatch));
}

#[test]
fn test_open_rejects_misaligned_length() {
    let mut file = leaf_table_page(&[], true);
    file.push(0);
    assert_eq!(Database::from_bytes(file), Err(DbError::FormatMismatch));
}

#[test]
fn test_open_rejects_zero_page_size() {
    let mut file = leaf_table_page(&[], true);
    file[16] = 0;
    file[17] = 0;
    assert_eq!(Database::from_bytes(file), Err(DbError::FormatMismatch));
}

#[test]
fn test_scan_of_absent_root_is_empty() {
    let db = apples_db();
    let fields = vec![(1usize, "name".to_string())];
    let mut row_set: Vec<String> = Vec::new();
    db.read_table(9, &None, &fields, &mut row_set).unwrap();
    assert!(row_set.is_empty());
}

#[test]
fn test_projection_out_of_range_field() {
    let db = apples_db();
    let fields = vec![(7usize, "nope".to_string())];
    let mut row_set: Vec<String> = Vec::new();
    assert_eq!(
        db.read_table(2, &None, &fields, &mut row_set),
        Err(DbError::OutOfRangeRead)
    );
}
