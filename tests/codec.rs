use sqlite_starter_rust::error::DbError;
use sqlite_starter_rust::header::{BTreePage, PageHeader};
use sqlite_starter_rust::record::{parse_column_value, parse_record, ColumnValue};
use sqlite_starter_rust::schema::{find_column_positions, Schema};
use sqlite_starter_rust::sql::read_column_and_table;
use sqlite_starter_rust::varint::{encode_varint, parse_varint};

fn round_trip(v: u64, len: usize) {
    let bytes = encode_varint(v);
    assert_eq!(bytes.len(), len);
    assert_eq!(parse_varint(&bytes), Ok((v, len)));
}

#[test]
fn varint_round_trip_boundaries() {
    round_trip(0, 1);
    round_trip(127, 1);
    round_trip(128, 2);
    round_trip(1 << 63, 9);
    round_trip(u64::MAX, 9);
}

#[test]
fn varint_round_trip_lengths() {
    round_trip(16383, 2);
    round_trip(16384, 3);
    round_trip((1 << 56) - 1, 8);
    round_trip(1 << 56, 9);
}

#[test]
fn varint_known_encodings() {
    assert_eq!(encode_varint(128), vec![0x81, 0x00]);
    assert_eq!(encode_varint(300), vec![0x82, 0x2c]);
    assert_eq!(encode_varint(u64::MAX), vec![0xff; 9]);
    assert_eq!(parse_varint(&[0x7f, 0x99]), Ok((127, 1)));
    assert_eq!(parse_varint(&[0x81, 0x00, 0x05]), Ok((128, 2)));
}

#[test]
fn varint_ninth_byte_uses_all_bits() {
    let mut bytes = vec![0x80; 8];
    bytes.push(0xff);
    assert_eq!(parse_varint(&bytes), Ok((255, 9)));
    bytes.push(0x01);
    assert_eq!(parse_varint(&bytes), Ok((255, 9)));
}

#[test]
fn varint_truncated_is_format_error() {
    assert_eq!(parse_varint(&[]), Err(DbError::Format));
    assert_eq!(parse_varint(&[0x81]), Err(DbError::Format));
    assert_eq!(parse_varint(&[0xff; 8]), Err(DbError::Format));
}

fn header_bytes(tag: u8) -> Vec<u8> {
    vec![tag, 0x00, 0x10, 0x00, 0x03, 0x0f, 0xa0, 0x02, 0x00, 0x00, 0x01, 0x02]
}

#[test]
fn page_header_interior_kinds() {
    for (tag, kind) in [(2u8, BTreePage::InteriorIndex), (5u8, BTreePage::InteriorTable)] {
        let (len, h) = PageHeader::parse(&header_bytes(tag)).unwrap();
        assert_eq!(len, 12);
        assert_eq!(h.page_type, kind);
        assert_eq!(h.first_free_block_start, 16);
        assert_eq!(h.number_of_cells, 3);
        assert_eq!(h.start_of_content_area, 4000);
        assert_eq!(h.fragmented_free_bytes, 2);
        assert_eq!(h.right_most_pointer, Some(258));
    }
}

#[test]
fn page_header_leaf_kinds() {
    for (tag, kind) in [(10u8, BTreePage::LeafIndex), (13u8, BTreePage::LeafTable)] {
        let (len, h) = PageHeader::parse(&header_bytes(tag)[..8]).unwrap();
        assert_eq!(len, 8);
        assert_eq!(h.page_type, kind);
        assert_eq!(h.number_of_cells, 3);
        assert_eq!(h.right_most_pointer, None);
    }
}

#[test]
fn page_header_rejects_other_tags() {
    for tag in 0u8..=255 {
        if tag == 2 || tag == 5 || tag == 10 || tag == 13 {
            continue;
        }
        assert_eq!(PageHeader::parse(&header_bytes(tag)).unwrap_err(), DbError::Format);
    }
}

#[test]
fn page_header_truncated() {
    assert_eq!(PageHeader::parse(&[]).unwrap_err(), DbError::Format);
    assert_eq!(PageHeader::parse(&header_bytes(5)[..8]).unwrap_err(), DbError::Format);
    assert_eq!(PageHeader::parse(&header_bytes(13)[..7]).unwrap_err(), DbError::Format);
}

#[test]
fn serial_types_of_the_table() {
    assert_eq!(parse_column_value(&[], 0), Ok(ColumnValue::Null));
    assert_eq!(parse_column_value(&[0x7f], 1), Ok(ColumnValue::I8(127)));
    assert_eq!(parse_column_value(&[0x01, 0x02], 2), Ok(ColumnValue::I16(258)));
    assert_eq!(parse_column_value(&[0x01, 0x02, 0x03], 3), Ok(ColumnValue::I24(66051)));
    assert_eq!(parse_column_value(&[0, 0, 1, 0], 4), Ok(ColumnValue::I32(256)));
    assert_eq!(parse_column_value(&[], 8), Ok(ColumnValue::False));
    assert_eq!(parse_column_value(&[], 9), Ok(ColumnValue::True));
    assert_eq!(parse_column_value(&[], 12), Ok(ColumnValue::Blob(vec![])));
    assert_eq!(parse_column_value(&[], 13), Ok(ColumnValue::Text(vec![])));
    assert_eq!(parse_column_value(&[1, 2, 3], 16), Ok(ColumnValue::Blob(vec![1, 2])));
    assert_eq!(parse_column_value(b"abc", 19), Ok(ColumnValue::Text(b"abc".to_vec())));
}

#[test]
fn serial_types_sign_extend() {
    assert_eq!(parse_column_value(&[0xff], 1), Ok(ColumnValue::I8(-1)));
    assert_eq!(parse_column_value(&[0x80, 0x00], 2), Ok(ColumnValue::I16(-32768)));
    assert_eq!(parse_column_value(&[0xff, 0xff, 0xfe], 3), Ok(ColumnValue::I24(-2)));
    assert_eq!(parse_column_value(&[0x80, 0, 0, 0], 4), Ok(ColumnValue::I32(i32::MIN)));
    assert_eq!(parse_column_value(&[0xff; 6], 5), Ok(ColumnValue::I48(-1)));
    assert_eq!(parse_column_value(&[0, 0, 0, 0, 1, 0], 5), Ok(ColumnValue::I48(256)));
    assert_eq!(parse_column_value(&[0x80, 0, 0, 0, 0, 0, 0, 0], 6), Ok(ColumnValue::I64(i64::MIN)));
    assert_eq!(parse_column_value(&[0, 0, 0, 0, 0, 0, 0, 7], 6), Ok(ColumnValue::I64(7)));
}

#[test]
fn serial_type_float_keeps_bits() {
    let bits = 1.5f64.to_bits();
    let v = parse_column_value(&bits.to_be_bytes(), 7).unwrap();
    assert_eq!(v, ColumnValue::Float64(bits));
    assert_eq!(v.display(), None);
}

#[test]
fn serial_types_reserved_or_short() {
    assert_eq!(parse_column_value(&[0; 8], 10), Err(DbError::Format));
    assert_eq!(parse_column_value(&[0; 8], 11), Err(DbError::Format));
    assert_eq!(parse_column_value(&[0x01], 2), Err(DbError::Format));
    assert_eq!(parse_column_value(b"ab", 19), Err(DbError::Format));
}

#[test]
fn record_decodes_declared_span() {
    // header: length 5, types text(2), int8, null, int16; then the values
    let bytes = [5u8, 17, 1, 0, 2, b'h', b'i', 0xfe, 0x01, 0x00, 0xaa];
    let cols = parse_record(&bytes, 4).unwrap();
    assert_eq!(
        cols,
        vec![
            ColumnValue::Text(b"hi".to_vec()),
            ColumnValue::I8(-2),
            ColumnValue::Null,
            ColumnValue::I16(256),
        ]
    );
    let span: usize = cols.iter().map(|c| c.length()).sum();
    assert_eq!(5 + span, 10);
}

#[test]
fn record_with_fewer_columns_asked() {
    let bytes = [4u8, 1, 1, 1, 7, 8, 9];
    assert_eq!(parse_record(&bytes, 2).unwrap(), vec![ColumnValue::I8(7), ColumnValue::I8(8)]);
    assert_eq!(parse_record(&bytes, 0).unwrap(), vec![]);
}

#[test]
fn record_errors() {
    // more serial types asked for than the header holds
    assert_eq!(parse_record(&[2u8, 1, 5], 2), Err(DbError::Format));
    // header length past the end
    assert_eq!(parse_record(&[9u8, 1], 1), Err(DbError::Format));
    // a value past the end
    assert_eq!(parse_record(&[2u8, 4, 0, 0], 1), Err(DbError::Format));
    // reserved serial type
    assert_eq!(parse_record(&[2u8, 10], 1), Err(DbError::Format));
    assert_eq!(parse_record(&[], 1), Err(DbError::Format));
}

#[test]
fn display_text_of_values() {
    assert_eq!(ColumnValue::Null.display(), Some(vec![]));
    assert_eq!(ColumnValue::I8(-5).display(), Some(b"-5".to_vec()));
    assert_eq!(ColumnValue::I24(0).display(), Some(b"0".to_vec()));
    assert_eq!(ColumnValue::I64(i64::MIN).display(), Some(b"-9223372036854775808".to_vec()));
    assert_eq!(ColumnValue::I64(i64::MAX).display(), Some(b"9223372036854775807".to_vec()));
    assert_eq!(ColumnValue::False.display(), Some(b"false".to_vec()));
    assert_eq!(ColumnValue::True.display(), Some(b"true".to_vec()));
    assert_eq!(ColumnValue::Blob(vec![1, 20, 255]).display(), Some(b"[1, 20, 255]".to_vec()));
    assert_eq!(ColumnValue::Blob(vec![]).display(), Some(b"[]".to_vec()));
    assert_eq!(ColumnValue::Text(b"xyz".to_vec()).display(), Some(b"xyz".to_vec()));
}

#[test]
fn integer_readers() {
    assert_eq!(ColumnValue::I16(300).read_u32(), Some(300));
    assert_eq!(ColumnValue::I8(-1).read_u32(), None);
    assert_eq!(ColumnValue::I64(1 << 40).read_u32(), None);
    assert_eq!(ColumnValue::I64(1 << 40).read_usize(), Some(1 << 40));
    assert_eq!(ColumnValue::False.read_u32(), Some(0));
    assert_eq!(ColumnValue::True.read_usize(), Some(1));
    assert_eq!(ColumnValue::Text(b"1".to_vec()).read_u32(), None);
    assert_eq!(ColumnValue::Null.read_usize(), None);
}

#[test]
fn value_lengths() {
    assert_eq!(ColumnValue::I48(0).length(), 6);
    assert_eq!(ColumnValue::Float64(0).length(), 8);
    assert_eq!(ColumnValue::True.length(), 0);
    assert_eq!(ColumnValue::Text(b"abcd".to_vec()).length(), 4);
}

#[test]
fn schema_from_catalog_row() {
    let row = vec![
        ColumnValue::Text(b"table".to_vec()),
        ColumnValue::Text(b"apples".to_vec()),
        ColumnValue::Text(b"apples".to_vec()),
        ColumnValue::I8(2),
        ColumnValue::Text(b"CREATE TABLE apples (id integer, name text)".to_vec()),
    ];
    let s = Schema::parse(row).unwrap();
    assert_eq!(s.kind, b"table".to_vec());
    assert_eq!(s.name, b"apples".to_vec());
    assert_eq!(s.root_page, 2);
    assert_eq!(s.sql, b"CREATE TABLE apples (id integer, name text)".to_vec());
}

#[test]
fn schema_from_bad_rows() {
    assert!(Schema::parse(vec![ColumnValue::Null; 4]).is_none());
    let bad_root = vec![
        ColumnValue::Text(b"table".to_vec()),
        ColumnValue::Text(b"t".to_vec()),
        ColumnValue::Text(b"t".to_vec()),
        ColumnValue::Text(b"2".to_vec()),
        ColumnValue::Null,
    ];
    assert!(Schema::parse(bad_root).is_none());
}

#[test]
fn column_positions_from_create_table() {
    let names = find_column_positions(
        b"CREATE TABLE apples\n(\n\tid integer primary key autoincrement,\n\tname text,\n\tcolor text\n)",
    );
    assert_eq!(names, vec![b"id".to_vec(), b"name".to_vec(), b"color".to_vec()]);
}

#[test]
fn column_positions_unquote_names() {
    let names = find_column_positions(b"CREATE TABLE t (\"id\" INTEGER, `size range` TEXT, [x] int)");
    assert_eq!(names, vec![b"id".to_vec(), b"`size".to_vec(), b"x".to_vec()]);
    let index = find_column_positions(b"CREATE INDEX idx_companies_country on companies (country)");
    assert_eq!(index, vec![b"country".to_vec()]);
    assert!(find_column_positions(b"no list here").is_empty());
}

#[test]
fn query_text_plain() {
    let q = read_column_and_table(b"SELECT name, color FROM apples").unwrap();
    assert_eq!(q.columns, vec![b"name".to_vec(), b"color".to_vec()]);
    assert_eq!(q.table, b"apples".to_vec());
    assert!(q.filter.is_none());
}

#[test]
fn query_text_with_filter() {
    let q = read_column_and_table(b"select id, name from companies where country = 'eritrea'").unwrap();
    assert_eq!(q.columns, vec![b"id".to_vec(), b"name".to_vec()]);
    assert_eq!(q.table, b"companies".to_vec());
    let f = q.filter.unwrap();
    assert_eq!(f.column, b"country".to_vec());
    assert_eq!(f.literal, b"eritrea".to_vec());
}

#[test]
fn query_text_not_a_query() {
    assert!(read_column_and_table(b".tables").is_none());
    assert!(read_column_and_table(b"").is_none());
}
