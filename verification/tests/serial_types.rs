use rust_sqlite::column::{SerialType, SerialValue};
use rust_sqlite::error::DbError;

#[test]
fn test_serial_type_fixed_codes() {
    assert_eq!(SerialType::read(0), Ok(SerialType::Null));
    assert_eq!(SerialType::read(1), Ok(SerialType::I8));
    assert_eq!(SerialType::read(2), Ok(SerialType::I16));
    assert_eq!(SerialType::read(3), Ok(SerialType::I24));
    assert_eq!(SerialType::read(4), Ok(SerialType::I32));
    assert_eq!(SerialType::read(5), Ok(SerialType::I48));
    assert_eq!(SerialType::read(6), Ok(SerialType::I64));
    assert_eq!(SerialType::read(7), Ok(SerialType::Float64));
    assert_eq!(SerialType::read(8), Ok(SerialType::Zero));
    assert_eq!(SerialType::read(9), Ok(SerialType::One));
}

#[test]
fn test_serial_type_blob_and_text_codes() {
    assert_eq!(SerialType::read(12), Ok(SerialType::Blob(0)));
    assert_eq!(SerialType::read(13), Ok(SerialType::String(0)));
    assert_eq!(SerialType::read(100), Ok(SerialType::Blob(44)));
    assert_eq!(SerialType::read(101), Ok(SerialType::String(44)));
    assert_eq!(SerialType::read(1_000_001), Ok(SerialType::String(499_994)));
    // every even code from 12 up measures (code-12)/2, every odd (code-13)/2
    for code in 12..600i64 {
        let t = SerialType::read(code).unwrap();
        let expect = if code % 2 == 0 { (code - 12) / 2 } else { (code - 13) / 2 } as usize;
        assert_eq!(t.length(), expect, "code {code}");
    }
}

#[test]
fn test_serial_type_invalid_codes() {
    assert_eq!(SerialType::read(10), Err(DbError::InvalidSerialType));
    assert_eq!(SerialType::read(11), Err(DbError::InvalidSerialType));
    assert_eq!(SerialType::read(-1), Err(DbError::InvalidSerialType));
    assert_eq!(SerialType::read(i64::MIN), Err(DbError::InvalidSerialType));
}

#[test]
fn test_serial_type_fixed_lengths() {
    assert_eq!(SerialType::Null.length(), 0);
    assert_eq!(SerialType::I8.length(), 1);
    assert_eq!(SerialType::I16.length(), 2);
    assert_eq!(SerialType::I24.length(), 3);
    assert_eq!(SerialType::I32.length(), 4);
    assert_eq!(SerialType::I48.length(), 6);
    assert_eq!(SerialType::I64.length(), 8);
    assert_eq!(SerialType::Float64.length(), 8);
    assert_eq!(SerialType::Zero.length(), 0);
    assert_eq!(SerialType::One.length(), 0);
}

#[test]
fn test_display_forms() {
    assert_eq!(SerialValue::I8(-5).display(), "-5");
    assert_eq!(SerialValue::I16(300).display(), "300");
    assert_eq!(SerialValue::I64(i64::MIN).display(), "-9223372036854775808");
    assert_eq!(SerialValue::Zero.display(), "0");
    assert_eq!(SerialValue::One.display(), "1");
    assert_eq!(SerialValue::Null.display(), "");
    assert_eq!(SerialValue::String(String::from("Fuji")).display(), "Fuji");
}

#[test]
fn test_unwrap_string() {
    let v = SerialValue::String(String::from("color"));
    assert_eq!(v.unwrap_string(), "color");
}
