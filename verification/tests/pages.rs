use rust_sqlite::cell::Cell;
use rust_sqlite::column::SerialValue;
use rust_sqlite::database::DbHeader;
use rust_sqlite::error::DbError;
use rust_sqlite::header::Header;
use rust_sqlite::page::{BTreePageHeader, Page, PageType};

fn enc_varint(v: u64) -> Vec<u8> {
    let mut rest = v / 128;
    let mut out = vec![(v % 128) as u8];
    while rest > 0 {
        out.push(0x80 | (rest % 128) as u8);
        rest /= 128;
    }
    out.reverse();
    out
}

fn record_payload(cols: &[(u64, Vec<u8>)]) -> Vec<u8> {
    let mut header = Vec::new();
    for (code, _) in cols {
        header.extend(enc_varint(*code));
    }
    let hlen = header.len() + 1;
    let mut out = vec![hlen as u8];
    out.extend(header);
    for (_, bytes) in cols {
        out.extend(bytes.clone());
    }
    out
}

fn small_leaf_page(size: usize) -> Vec<u8> {
    // one cell holding a single I8 column with value 9, rowid 1
    let payload = record_payload(&[(1, vec![9])]);
    let mut page = vec![0u8; size];
    let mut cell = Vec::new();
    cell.extend(enc_varint(payload.len() as u64));
    cell.extend(enc_varint(1));
    cell.extend(payload);
    let top = size - cell.len();
    page[top..].copy_from_slice(&cell);
    page[0] = 13;
    page[3..5].copy_from_slice(&1u16.to_be_bytes());
    page[5..7].copy_from_slice(&(top as u16).to_be_bytes());
    page[8..10].copy_from_slice(&(top as u16).to_be_bytes());
    page
}

#[test]
fn test_page_type_from_byte() {
    assert_eq!(PageType::from_byte(2), PageType::InteriorIndex);
    assert_eq!(PageType::from_byte(5), PageType::InteriorTable);
    assert_eq!(PageType::from_byte(10), PageType::LeafIndex);
    assert_eq!(PageType::from_byte(13), PageType::LeafTable);
    assert_eq!(PageType::from_byte(0), PageType::PageError);
    assert_eq!(PageType::from_byte(255), PageType::PageError);
}

#[test]
fn test_page_type_bytes() {
    let mut h = vec![0u8; 12];
    for (byte, expect) in [
        (2u8, PageType::InteriorIndex),
        (5, PageType::InteriorTable),
        (10, PageType::LeafIndex),
        (13, PageType::LeafTable),
        (0, PageType::PageError),
        (7, PageType::PageError),
    ] {
        h[0] = byte;
        let parsed = BTreePageHeader::new(&h).unwrap();
        assert_eq!(parsed.page_type, expect, "byte {byte}");
    }
}

#[test]
fn test_btree_header_fields() {
    let h: Vec<u8> = vec![5, 0x01, 0x02, 0x00, 0x07, 0x0f, 0xf0, 3, 0x00, 0x00, 0x00, 0x09];
    let parsed = BTreePageHeader::new(&h).unwrap();
    assert_eq!(parsed.page_type, PageType::InteriorTable);
    assert_eq!(parsed.freeblock_offset, 0x0102);
    assert_eq!(parsed.ncells(), 7);
    assert_eq!(parsed.cells_start, 0x0ff0);
    assert_eq!(parsed.nfragemented_free, 3);
    assert_eq!(parsed.right_most_pointer, Some(9));
    let mut leaf = h.clone();
    leaf[0] = 13;
    assert_eq!(BTreePageHeader::new(&leaf).unwrap().right_most_pointer, None);
}

#[test]
fn test_page_read_cell() {
    let bytes = small_leaf_page(512);
    let page = Page::new(3, None, &bytes).unwrap();
    assert_eq!(*page.page_type(), PageType::LeafTable);
    let (rowid, record) = page.read_cell(0).unwrap();
    assert_eq!(rowid, Some(1));
    let record = record.unwrap();
    assert_eq!(*record.columns[0].data(), SerialValue::I8(9));
}

#[test]
fn test_page_read_cell_out_of_range() {
    let bytes = small_leaf_page(512);
    let page = Page::new(3, None, &bytes).unwrap();
    assert_eq!(page.read_cell(1), Err(DbError::InvalidCellIndex));
}

#[test]
fn test_page_too_small() {
    assert_eq!(Page::new(1, None, &[13u8; 8]), Err(DbError::OutOfRangeRead));
    assert_eq!(Page::new(0, None, &[0u8; 80]), Err(DbError::OutOfRangeRead));
}

#[test]
fn test_cell_from_error_page() {
    let bytes = small_leaf_page(512);
    assert_eq!(
        Cell::from_bytes(&PageType::PageError, 0, &bytes),
        Err(DbError::InvalidPageType)
    );
}

#[test]
fn test_interior_table_cell() {
    let mut bytes = vec![0u8; 32];
    bytes[..4].copy_from_slice(&7u32.to_be_bytes());
    bytes[4..6].copy_from_slice(&enc_varint(300));
    let cell = Cell::from_bytes(&PageType::InteriorTable, 0, &bytes).unwrap();
    match cell {
        Cell::InteriorTable { page_number_left_child, rowid } => {
            assert_eq!(page_number_left_child, 7);
            assert_eq!(rowid, 300);
        }
        _ => panic!("wrong cell shape"),
    }
}

#[test]
fn test_leaf_table_cell_overflow_detection() {
    let payload = record_payload(&[(1, vec![5])]);
    let mut cell_bytes = Vec::new();
    cell_bytes.extend(enc_varint(payload.len() as u64));
    cell_bytes.extend(enc_varint(1));
    cell_bytes.extend(payload);
    // exactly the cell: no room for an overflow page number
    let tight = cell_bytes.clone();
    match Cell::from_bytes(&PageType::LeafTable, 0, &tight).unwrap() {
        Cell::LeafTable { page_number_first_overflow, .. } => {
            assert_eq!(page_number_first_overflow, None);
        }
        _ => panic!("wrong cell shape"),
    }
    // four extra bytes after the payload read as the overflow page number
    let mut padded = cell_bytes.clone();
    padded.extend(77u32.to_be_bytes());
    match Cell::from_bytes(&PageType::LeafTable, 0, &padded).unwrap() {
        Cell::LeafTable { page_number_first_overflow, .. } => {
            assert_eq!(page_number_first_overflow, Some(77));
        }
        _ => panic!("wrong cell shape"),
    }
}

#[test]
fn test_db_header_fields() {
    let mut h = vec![0u8; 100];
    h[..16].copy_from_slice(b"SQLite format 3\0");
    h[16..18].copy_from_slice(&4096u16.to_be_bytes());
    let parsed = DbHeader::new(&h).unwrap();
    assert_eq!(parsed.header_string, "SQLite format 3\0");
    assert_eq!(parsed.page_size, 4096);
    assert_eq!(Header::new(&h).page_size, 4096);
    h[2] = 0xff;
    assert_eq!(DbHeader::new(&h), Err(DbError::Utf8DecodeError));
}
