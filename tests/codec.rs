use sqlite_riir::page::btree_table_leaf::parse_cell;
use sqlite_riir::page::{BTreePageHeader, PageType};
use sqlite_riir::record::{ColumnType, Record, Value};
use sqlite_riir::{parse_varint, DbError};

#[test]
fn varint_single_byte() {
    assert_eq!(parse_varint(&[0x05], 0), Ok((5, 1)));
    assert_eq!(parse_varint(&[0x7f, 0xff], 0), Ok((127, 1)));
}

#[test]
fn varint_is_most_significant_first() {
    // 0x81 0x00 is 1 * 128 + 0.
    assert_eq!(parse_varint(&[0x81, 0x00], 0), Ok((128, 2)));
    assert_eq!(parse_varint(&[0x82, 0x2c], 0), Ok((300, 2)));
    assert_eq!(parse_varint(&[0x00, 0x81, 0x81, 0x01], 1), Ok((16513, 4)));
}

#[test]
fn varint_nine_bytes() {
    // Eight bytes of seven ones each, then a ninth byte in the top byte position.
    let bytes = [0xff, 0xff, 0xff, 0xff, 0xff, 0xff, 0xff, 0xff, 0x01];
    assert_eq!(parse_varint(&bytes, 0), Ok((0x01ff_ffff_ffff_ffff, 9)));
    let bytes = [0x80, 0x80, 0x80, 0x80, 0x80, 0x80, 0x80, 0x80, 0xff, 0x33];
    assert_eq!(parse_varint(&bytes, 0), Ok((-0x0100_0000_0000_0000, 9)));
}

#[test]
fn varint_truncated() {
    assert_eq!(parse_varint(&[], 0), Err(DbError::FormatTruncated));
    assert_eq!(parse_varint(&[0x81, 0x82], 0), Err(DbError::FormatTruncated));
    assert_eq!(parse_varint(&[0x01], 1), Err(DbError::FormatTruncated));
}

#[test]
fn leaf_cell_with_nine_byte_payload_length() {
    // The payload-length varint takes all nine bytes; such a payload cannot fit.
    let mut cell = vec![0xff, 0xff, 0xff, 0xff, 0xff, 0xff, 0xff, 0xff, 0x00];
    cell.push(0x01);
    assert_eq!(parse_varint(&cell, 0), Ok((0x00ff_ffff_ffff_ffff, 9)));
    assert_eq!(parse_varint(&cell, 9), Ok((1, 10)));
    assert!(matches!(parse_cell(&cell, 0), Err(DbError::FormatTruncated)));
}

#[test]
fn column_types_from_codes() {
    assert_eq!(ColumnType::from_numeric(0), ColumnType::Null);
    assert_eq!(ColumnType::from_numeric(3), ColumnType::I24);
    assert_eq!(ColumnType::from_numeric(7), ColumnType::F64);
    assert_eq!(ColumnType::from_numeric(9), ColumnType::One);
    assert_eq!(ColumnType::from_numeric(10), ColumnType::SQLiteReserved);
    assert_eq!(ColumnType::from_numeric(11), ColumnType::SQLiteReserved);
    assert_eq!(ColumnType::from_numeric(12), ColumnType::Blob(0));
    assert_eq!(ColumnType::from_numeric(18), ColumnType::Blob(3));
    assert_eq!(ColumnType::from_numeric(13), ColumnType::String(0));
    assert_eq!(ColumnType::from_numeric(23), ColumnType::String(5));
    assert_eq!(ColumnType::String(5).width(), 5);
    assert_eq!(ColumnType::I48.width(), 6);
}

#[test]
fn record_with_mixed_types() {
    // Header length 4 (itself included), codes null, int24, string(5); then the body.
    let payload = [0x04, 0x00, 0x03, 0x17, 0x00, 0x00, 0x2a, b'h', b'e', b'l', b'l', b'o'];
    let record = Record::parse(&payload).expect("record parses");
    assert_eq!(
        record.type_iter(),
        vec![ColumnType::Null, ColumnType::I24, ColumnType::String(5)]
    );
    let values = record.value_iter();
    assert_eq!(values.len(), record.type_iter().len());
    assert_eq!(values, vec![Value::Null, Value::I24(42), Value::String(&b"hello"[..])]);
    let owned: Vec<_> = values.iter().map(|v| v.to_owned()).collect();
    assert_eq!(owned, vec![Value::Null, Value::I24(42), Value::String(b"hello".to_vec())]);
    assert_eq!(values[2].ty(), ColumnType::String(5));
}

#[test]
fn record_integers_sign_extend() {
    // int8 -1, int24 -2, int48 -3, int16 0x1234, constant 1.
    let payload = [
        0x06, 0x01, 0x03, 0x05, 0x02, 0x09, 0xff, 0xff, 0xff, 0xfe, 0xff, 0xff, 0xff, 0xff, 0xff,
        0xfd, 0x12, 0x34,
    ];
    let record = Record::parse(&payload).expect("record parses");
    assert_eq!(
        record.value_iter(),
        vec![Value::I8(-1), Value::I24(-2), Value::I48(-3), Value::I16(0x1234), Value::One]
    );
    assert_eq!(record.value_iter()[2].to_owned().as_integer(), Some(-3));
}

#[test]
fn record_float_keeps_its_bits() {
    let bits = 1.5f64.to_bits().to_be_bytes();
    let mut payload = vec![0x02, 0x07];
    payload.extend_from_slice(&bits);
    let record = Record::parse(&payload).expect("record parses");
    let values = record.value_iter();
    assert_eq!(values, vec![Value::F64(1.5f64.to_bits())]);
    assert_eq!(values[0].ty(), ColumnType::F64);
}

#[test]
fn record_errors() {
    // The body is one byte short of the int24.
    assert!(matches!(Record::parse(&[0x02, 0x03, 0x00, 0x2a]), Err(DbError::FormatTruncated)));
    // The body holds a byte more than the header announces.
    assert!(matches!(Record::parse(&[0x02, 0x01, 0x05, 0x06]), Err(DbError::FormatRecord)));
    // A header length of zero does not cover its own varint.
    assert!(matches!(Record::parse(&[0x00, 0x03]), Err(DbError::FormatRecord)));
    // The header length runs past the payload.
    assert!(matches!(Record::parse(&[0x05, 0x01]), Err(DbError::FormatTruncated)));
    // A type code runs past the end of the header.
    assert!(matches!(Record::parse(&[0x02, 0x81, 0x01]), Err(DbError::FormatTruncated)));
}

#[test]
fn btree_page_header() {
    let mut page = vec![0u8; 512];
    page[..8].copy_from_slice(&[0x0d, 0x00, 0x00, 0x00, 0x02, 0x00, 0x00, 0x07]);
    let (ty, header, end) = BTreePageHeader::parse(&page).expect("header parses");
    assert_eq!(ty, PageType::BTreeTableLeaf);
    assert_eq!(header.cell_count, 2);
    assert_eq!(header.cell_content_offset, 65536);
    assert_eq!(header.fragmented_bytes_count, 7);
    assert_eq!(end, 8);
    page[0] = 0x0a;
    assert!(matches!(BTreePageHeader::parse(&page), Err(DbError::UnsupportedPageType(0x0a))));
    assert_eq!(PageType::from_header_byte(0x05), Ok(PageType::BTreeTableInternal));
    assert!(matches!(BTreePageHeader::parse(&page[..4]), Err(DbError::FormatTruncated)));
}

/// The shortest varint for `n`: seven-bit groups, most significant first; above 56
/// bits, eight groups for the low 56 bits and a ninth byte for the top eight.
fn encode(n: u64) -> Vec<u8> {
    if n >= 1 << 56 {
        let low = n & ((1 << 56) - 1);
        let mut out: Vec<u8> = (0..8).rev().map(|g| ((low >> (7 * g)) & 0x7f) as u8 | 0x80).collect();
        out.push((n >> 56) as u8);
        return out;
    }
    let mut groups = vec![(n & 0x7f) as u8];
    let mut rest = n >> 7;
    while rest > 0 {
        groups.push((rest & 0x7f) as u8 | 0x80);
        rest >>= 7;
    }
    groups.reverse();
    groups
}

#[test]
fn varint_round_trip() {
    let samples = [
        0u64,
        1,
        127,
        128,
        300,
        16383,
        16384,
        (1 << 21) + 5,
        (1 << 56) - 1,
        1 << 56,
        (1 << 63) + 12345,
        u64::MAX,
    ];
    for n in samples {
        let bytes = encode(n);
        assert_eq!(parse_varint(&bytes, 0), Ok((n as i64, bytes.len())));
    }
}
