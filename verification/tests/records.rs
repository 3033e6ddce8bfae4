use rust_sqlite::column::{SerialType, SerialValue};
use rust_sqlite::error::DbError;
use rust_sqlite::record::Record;

fn enc_varint(v: u64) -> Vec<u8> {
    let mut rest = v / 128;
    let mut out = vec![(v % 128) as u8];
    while rest > 0 {
        out.push(0x80 | (rest % 128) as u8);
        rest /= 128;
    }
    out.reverse();
    out
}

/// A record payload from (serial-type code, value bytes) pairs.
fn record_payload(cols: &[(u64, Vec<u8>)]) -> Vec<u8> {
    let mut header = Vec::new();
    for (code, _) in cols {
        header.extend(enc_varint(*code));
    }
    let hlen = header.len() + 1;
    assert!(hlen < 128);
    let mut out = vec![hlen as u8];
    out.extend(header);
    for (_, bytes) in cols {
        out.extend(bytes.clone());
    }
    out
}

fn text_col(s: &str) -> (u64, Vec<u8>) {
    ((13 + 2 * s.len()) as u64, s.as_bytes().to_vec())
}

#[test]
fn test_record_decode_mixed_columns() {
    let payload = record_payload(&[
        (0, vec![]),
        (1, vec![7]),
        text_col("hi"),
        (8, vec![]),
        (9, vec![]),
        (16, vec![0xde, 0xad]),
    ]);
    let rec = Record::new(&payload).unwrap();
    assert_eq!(rec.columns.len(), 6);
    assert_eq!(*rec.columns[0].key(), SerialType::Null);
    assert_eq!(*rec.columns[0].data(), SerialValue::Null);
    assert_eq!(*rec.columns[1].data(), SerialValue::I8(7));
    assert_eq!(*rec.columns[2].data(), SerialValue::String(String::from("hi")));
    assert_eq!(*rec.columns[3].data(), SerialValue::Zero);
    assert_eq!(*rec.columns[4].data(), SerialValue::One);
    assert_eq!(*rec.columns[5].data(), SerialValue::Blob(vec![0xde, 0xad]));
}

#[test]
fn test_record_sign_extension() {
    let payload = record_payload(&[
        (1, vec![0xff]),
        (2, vec![0xff, 0xfe]),
        (3, vec![0xff, 0xff, 0xfd]),
        (4, vec![0xff, 0xff, 0xff, 0xfc]),
        (5, vec![0xff, 0xff, 0xff, 0xff, 0xff, 0xfb]),
        (6, vec![0xff, 0xff, 0xff, 0xff, 0xff, 0xff, 0xff, 0xfa]),
    ]);
    let rec = Record::new(&payload).unwrap();
    assert_eq!(*rec.columns[0].data(), SerialValue::I8(-1));
    assert_eq!(*rec.columns[1].data(), SerialValue::I16(-2));
    assert_eq!(*rec.columns[2].data(), SerialValue::I24(-3));
    assert_eq!(*rec.columns[3].data(), SerialValue::I32(-4));
    assert_eq!(*rec.columns[4].data(), SerialValue::I48(-5));
    assert_eq!(*rec.columns[5].data(), SerialValue::I64(-6));
}

#[test]
fn test_record_positive_widths() {
    let payload = record_payload(&[
        (2, vec![0x01, 0x29]),
        (4, vec![0x00, 0x01, 0x00, 0x00]),
        (7, vec![0x40, 0x09, 0x21, 0xfb, 0x54, 0x44, 0x2d, 0x18]),
    ]);
    let rec = Record::new(&payload).unwrap();
    assert_eq!(*rec.columns[0].data(), SerialValue::I16(297));
    assert_eq!(*rec.columns[1].data(), SerialValue::I32(65536));
    // the float's raw big-endian bit pattern is recorded, not interpreted
    assert_eq!(*rec.columns[2].data(), SerialValue::Float64(0x400921fb54442d18));
}

#[test]
fn test_record_decode_idempotent() {
    let payload = record_payload(&[
        (1, vec![42]),
        text_col("same"),
        (0, vec![]),
    ]);
    let first = Record::new(&payload).unwrap();
    let second = Record::new(&payload).unwrap();
    assert_eq!(first, second);
}

#[test]
fn test_record_invalid_serial_type() {
    let payload = record_payload(&[(10, vec![])]);
    assert_eq!(Record::new(&payload), Err(DbError::InvalidSerialType));
}

#[test]
fn test_record_invalid_utf8() {
    let payload = record_payload(&[(15, vec![0xff, 0xfe])]);
    assert_eq!(Record::new(&payload), Err(DbError::Utf8DecodeError));
}

#[test]
fn test_record_truncated_value() {
    // the header declares a 4-byte integer but only two bytes follow
    let payload = record_payload(&[(4, vec![0x00, 0x01])]);
    assert_eq!(Record::new(&payload), Err(DbError::OutOfRangeRead));
}

#[test]
fn test_record_empty_header() {
    // a header of length 1 covers only its own varint: no columns
    let rec = Record::new(&[0x01]).unwrap();
    assert_eq!(rec.columns.len(), 0);
}
