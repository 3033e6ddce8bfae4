use rust_sqlite::decode_varint;
use rust_sqlite::error::DbError;
use rust_sqlite::varint::Varint;

/// The reference encoder: seven value bits per byte, most significant chunk
/// first, continuation bit on every byte but the last; values needing more
/// than eight chunks put their low seven bits in a ninth byte.
fn encode_varint(v: i64) -> Vec<u8> {
    assert!(v >= 0);
    let v = v as u64;
    let mut rest = v / 128;
    let mut out = vec![(v % 128) as u8];
    while rest > 0 {
        out.push(0x80 | (rest % 128) as u8);
        rest /= 128;
    }
    out.reverse();
    out
}

#[test]
fn test_decode_varint() {
    let varint_bytes = vec![0x81, 0x01];

    let (val, _i) = decode_varint(&varint_bytes).unwrap();

    assert_eq!(val, 129);
}

#[test]
fn test_decode_varint_consumed_length() {
    let (val, n) = decode_varint(&[0x7f, 0xff]).unwrap();
    assert_eq!(val, 127);
    assert_eq!(n, 1);

    let (val, n) = decode_varint(&[0x81, 0x00, 0x55]).unwrap();
    assert_eq!(val, 128);
    assert_eq!(n, 2);
}

#[test]
fn test_varint_roundtrip_values() {
    let samples: Vec<i64> = vec![
        0,
        1,
        127,
        128,
        129,
        16383,
        16384,
        1 << 20,
        (1 << 56) - 1,
        1 << 56,
        (1 << 62) + 12345,
        i64::MAX,
    ];
    for v in samples {
        let bytes = encode_varint(v);
        assert!(bytes.len() >= 1 && bytes.len() <= 9);
        let (val, n) = decode_varint(&bytes).unwrap();
        assert_eq!(val, v, "value {v}");
        assert_eq!(n, bytes.len(), "length for {v}");
    }
}

#[test]
fn test_varint_read_at_offset() {
    let data = vec![0xaa, 0xbb, 0x82, 0x05];
    let (v, n) = Varint::read(&data, 2).unwrap();
    assert_eq!(v.0, 2 * 128 + 5);
    assert_eq!(n, 2);
}

#[test]
fn test_varint_insufficient_input() {
    // a lone continuation byte promises more than the slice holds
    assert_eq!(decode_varint(&[0x80]), Err(DbError::OutOfRangeRead));
    assert_eq!(decode_varint(&[]), Err(DbError::OutOfRangeRead));
    assert_eq!(Varint::read(&[0x01], 5), Err(DbError::OutOfRangeRead));
}

#[test]
fn test_varint_nine_bytes() {
    // eight continuation bytes, then a ninth that ends the encoding
    let bytes = vec![0xff, 0xff, 0xff, 0xff, 0xff, 0xff, 0xff, 0xff, 0x7f];
    let (_, n) = decode_varint(&bytes).unwrap();
    assert_eq!(n, 9);
}
