use sqlite_starter_rust::btree::{index_entries, table_rows};
use sqlite_starter_rust::error::DbError;
use sqlite_starter_rust::query::{
    count_rows_in_table, read_columns, read_db_header, read_index, run_query, table_names, Filter,
    Query, QueryRow,
};
use sqlite_starter_rust::record::{parse_record, ColumnValue};
use sqlite_starter_rust::varint::encode_varint;

const PAGE_SIZE: usize = 512;

enum Val<'a> {
    Null,
    Int(i64),
    Text(&'a str),
}

fn record(values: &[Val]) -> Vec<u8> {
    let mut types = Vec::new();
    let mut body = Vec::new();
    for v in values {
        match v {
            Val::Null => types.extend(encode_varint(0)),
            Val::Int(i) => {
                if *i >= -128 && *i <= 127 {
                    types.extend(encode_varint(1));
                    body.push(*i as i8 as u8);
                } else {
                    types.extend(encode_varint(4));
                    body.extend((*i as i32).to_be_bytes());
                }
            }
            Val::Text(t) => {
                types.extend(encode_varint(13 + 2 * t.len() as u64));
                body.extend(t.as_bytes());
            }
        }
    }
    let mut out = encode_varint(types.len() as u64 + 1);
    out.extend(types);
    out.extend(body);
    out
}

fn table_leaf_cell(rowid: u64, rec: &[u8]) -> Vec<u8> {
    let mut c = encode_varint(rec.len() as u64);
    c.extend(encode_varint(rowid));
    c.extend(rec);
    c
}

fn table_interior_cell(child: u32, key: u64) -> Vec<u8> {
    let mut c = child.to_be_bytes().to_vec();
    c.extend(encode_varint(key));
    c
}

fn index_leaf_cell(rec: &[u8]) -> Vec<u8> {
    let mut c = encode_varint(rec.len() as u64);
    c.extend(rec);
    c
}

fn index_interior_cell(child: u32, rec: &[u8]) -> Vec<u8> {
    let mut c = child.to_be_bytes().to_vec();
    c.extend(index_leaf_cell(rec));
    c
}

/// One page: header at `header_at`, cell pointers after it, cells packed
/// at the end of the page.
fn page(tag: u8, header_at: usize, cells: &[Vec<u8>], right: Option<u32>) -> Vec<u8> {
    sized_page(PAGE_SIZE, tag, header_at, cells, right)
}

fn sized_page(size: usize, tag: u8, header_at: usize, cells: &[Vec<u8>], right: Option<u32>) -> Vec<u8> {
    let mut p = vec![0u8; size];
    let mut end = size;
    let mut pointers = Vec::new();
    for cell in cells {
        end -= cell.len();
        p[end..end + cell.len()].copy_from_slice(cell);
        pointers.push(end as u16);
    }
    p[header_at] = tag;
    p[header_at + 3..header_at + 5].copy_from_slice(&(cells.len() as u16).to_be_bytes());
    p[header_at + 5..header_at + 7].copy_from_slice(&(end as u16).to_be_bytes());
    let mut at = header_at + 8;
    if let Some(r) = right {
        p[header_at + 8..header_at + 12].copy_from_slice(&r.to_be_bytes());
        at = header_at + 12;
    }
    for ptr in pointers {
        p[at..at + 2].copy_from_slice(&ptr.to_be_bytes());
        at += 2;
    }
    p
}

/// A database whose page 1 holds the catalog rows `catalog` and whose
/// further pages are `pages` (page 2 onward).
fn database(catalog: &[Vec<u8>], pages: Vec<Vec<u8>>) -> Vec<u8> {
    sized_database(PAGE_SIZE, catalog, pages)
}

fn sized_database(size: usize, catalog: &[Vec<u8>], pages: Vec<Vec<u8>>) -> Vec<u8> {
    let cells: Vec<Vec<u8>> = catalog
        .iter()
        .enumerate()
        .map(|(i, rec)| table_leaf_cell(i as u64 + 1, rec))
        .collect();
    let mut first = sized_page(size, 13, 100, &cells, None);
    first[..16].copy_from_slice(b"SQLite format 3\0");
    first[16..18].copy_from_slice(&(size as u16).to_be_bytes());
    let mut db = first;
    for p in pages {
        db.extend(p);
    }
    db
}

fn catalog_row(kind: &str, name: &str, table: &str, root: i64, sql: &str) -> Vec<u8> {
    record(&[Val::Text(kind), Val::Text(name), Val::Text(table), Val::Int(root), Val::Text(sql)])
}

const FRUIT_SQL: &str = "CREATE TABLE fruit (\"id\" INTEGER, \"name\" TEXT)";

/// The table `fruit` on page 2, rows 1, 2, 3 named a, b, c; with an index
/// on `name` on page 3 where `with_index`.
fn fruit_database(with_index: bool) -> Vec<u8> {
    let names = ["a", "b", "c"];
    let cells: Vec<Vec<u8>> = names
        .iter()
        .enumerate()
        .map(|(i, n)| table_leaf_cell(i as u64 + 1, &record(&[Val::Null, Val::Text(n)])))
        .collect();
    let mut catalog = vec![catalog_row("table", "fruit", "fruit", 2, FRUIT_SQL)];
    let mut pages = vec![page(13, 0, &cells, None)];
    if with_index {
        catalog.push(catalog_row(
            "index",
            "fruit_name",
            "fruit",
            3,
            "CREATE INDEX fruit_name ON fruit (name)",
        ));
        let keys: Vec<Vec<u8>> = names
            .iter()
            .enumerate()
            .map(|(i, n)| index_leaf_cell(&record(&[Val::Text(n), Val::Int(i as i64 + 1)])))
            .collect();
        pages.push(page(10, 0, &keys, None));
    }
    database(&catalog, pages)
}

fn shown(rows: &[QueryRow]) -> Vec<(u64, Vec<Vec<u8>>)> {
    rows.iter()
        .map(|r| (r.rowid, r.values.iter().map(|v| v.display().unwrap()).collect()))
        .collect()
}

fn query(columns: &[&str], table: &str, filter: Option<(&str, &str)>) -> Query {
    Query {
        columns: columns.iter().map(|c| c.as_bytes().to_vec()).collect(),
        table: table.as_bytes().to_vec(),
        filter: filter.map(|(c, l)| Filter { column: c.as_bytes().to_vec(), literal: l.as_bytes().to_vec() }),
    }
}

fn row(id: u64, values: &[&str]) -> (u64, Vec<Vec<u8>>) {
    (id, values.iter().map(|v| v.as_bytes().to_vec()).collect())
}

#[test]
fn catalog_is_loaded() {
    let db = fruit_database(true);
    let header = read_db_header(&db).unwrap();
    assert_eq!(header.page_size, 512);
    assert_eq!(header.schemas.len(), 2);
    assert_eq!(header.schemas[0].name, b"fruit".to_vec());
    assert_eq!(header.schemas[0].root_page, 2);
    assert_eq!(header.schemas[1].kind, b"index".to_vec());
    assert_eq!(header.schemas[1].root_page, 3);
    assert_eq!(table_names(&header), vec![b"fruit".to_vec()]);
}

#[test]
fn catalog_errors() {
    assert_eq!(read_db_header(&[0u8; 50]).unwrap_err(), DbError::Format);
    let mut db = fruit_database(false);
    db[16] = 0;
    db[17] = 1;
    assert_eq!(read_db_header(&db).unwrap_err(), DbError::Unsupported);
    db[17] = 100;
    assert_eq!(read_db_header(&db).unwrap_err(), DbError::Format);
    let mut db = fruit_database(false);
    db[100] = 7;
    assert_eq!(read_db_header(&db).unwrap_err(), DbError::Format);
}

#[test]
fn table_names_skip_internal_tables() {
    let catalog = vec![
        catalog_row("table", "sqlite_sequence", "sqlite_sequence", 2, "CREATE TABLE sqlite_sequence(name,seq)"),
        catalog_row("table", "apples", "apples", 2, "CREATE TABLE apples (id integer, name text)"),
        catalog_row("index", "apples_name", "apples", 2, "CREATE INDEX apples_name on apples (name)"),
    ];
    let db = database(&catalog, vec![page(13, 0, &[], None)]);
    let header = read_db_header(&db).unwrap();
    assert_eq!(table_names(&header), vec![b"apples".to_vec()]);
}

#[test]
fn scenario_full_scan() {
    let db = fruit_database(false);
    let header = read_db_header(&db).unwrap();
    let rows = read_columns(&query(&["id", "name"], "fruit", None), &header, &db).unwrap();
    assert_eq!(shown(&rows), vec![row(1, &["1", "a"]), row(2, &["2", "b"]), row(3, &["3", "c"])]);
}

#[test]
fn scenario_filtered_scan() {
    let db = fruit_database(false);
    let header = read_db_header(&db).unwrap();
    let rows = read_columns(&query(&["id", "name"], "fruit", Some(("name", "b"))), &header, &db).unwrap();
    assert_eq!(shown(&rows), vec![row(2, &["2", "b"])]);
    let none = read_columns(&query(&["name"], "fruit", Some(("name", "z"))), &header, &db).unwrap();
    assert!(none.is_empty());
}

#[test]
fn scenario_count_without_decoding() {
    // five rows whose records are not even valid: counting never decodes them
    let cells: Vec<Vec<u8>> = (1..=5).map(|i| table_leaf_cell(i, &[0xff, 0xff])).collect();
    let catalog = vec![catalog_row("table", "t", "t", 2, "CREATE TABLE t (x)")];
    let db = database(&catalog, vec![page(13, 0, &cells, None)]);
    let header = read_db_header(&db).unwrap();
    assert_eq!(count_rows_in_table(b"t", &header, &db), Ok(5));
    assert_eq!(count_rows_in_table(b"u", &header, &db), Err(DbError::NotFound));
}

#[test]
fn scenario_index_matches_scan() {
    let db = fruit_database(true);
    let header = read_db_header(&db).unwrap();
    let q = query(&["id", "name"], "fruit", Some(("name", "b")));
    let scanned = read_columns(&q, &header, &db).unwrap();
    let indexed = read_index(&db, &q, &header).unwrap();
    let chosen = run_query(&db, &header, &q).unwrap();
    assert_eq!(shown(&scanned), vec![row(2, &["2", "b"])]);
    assert_eq!(shown(&indexed), shown(&scanned));
    assert_eq!(shown(&chosen), shown(&scanned));
}

#[test]
fn index_needs_a_matching_index() {
    let db = fruit_database(false);
    let header = read_db_header(&db).unwrap();
    let q = query(&["id"], "fruit", Some(("name", "b")));
    assert_eq!(read_index(&db, &q, &header).unwrap_err(), DbError::NotFound);
    assert_eq!(shown(&run_query(&db, &header, &q).unwrap()), vec![row(2, &["2"])]);
}

#[test]
fn query_errors() {
    let db = fruit_database(false);
    let header = read_db_header(&db).unwrap();
    let e = |q: Query| read_columns(&q, &header, &db).unwrap_err();
    assert_eq!(e(query(&["name"], "nothing", None)), DbError::NotFound);
    assert_eq!(e(query(&["colour"], "fruit", None)), DbError::NotFound);
    assert_eq!(e(query(&["name"], "fruit", Some(("colour", "x")))), DbError::NotFound);
}

#[test]
fn projection_order_and_repeats() {
    let db = fruit_database(false);
    let header = read_db_header(&db).unwrap();
    let rows = read_columns(&query(&["name", "id", "name"], "fruit", None), &header, &db).unwrap();
    assert_eq!(rows[0].values, vec![
        ColumnValue::Text(b"a".to_vec()),
        ColumnValue::I64(1),
        ColumnValue::Text(b"a".to_vec()),
    ]);
}

/// Table tree of three levels: root page 2 (interior) with interior
/// children 3 and 4, leaves 5 to 8, rows 1 to 12.
fn three_level_database() -> Vec<u8> {
    let mut leaves = Vec::new();
    for leaf in 0..4u64 {
        let cells: Vec<Vec<u8>> = (1..=3)
            .map(|k| {
                let id = leaf * 3 + k;
                table_leaf_cell(id, &record(&[Val::Null, Val::Int(id as i64 * 10)]))
            })
            .collect();
        leaves.push(page(13, 0, &cells, None));
    }
    let root = page(5, 0, &[table_interior_cell(3, 6)], Some(4));
    let left = page(5, 0, &[table_interior_cell(5, 3)], Some(6));
    let right = page(5, 0, &[table_interior_cell(7, 9)], Some(8));
    let catalog = vec![catalog_row("table", "n", "n", 2, "CREATE TABLE n (id integer, v integer)")];
    let mut pages = vec![root, left, right];
    pages.extend(leaves);
    database(&catalog, pages)
}

#[test]
fn table_tree_rowids_ascend() {
    let db = three_level_database();
    let rows = table_rows(&db, PAGE_SIZE as u16, 2).unwrap();
    let ids: Vec<u64> = rows.iter().map(|r| r.rowid).collect();
    assert_eq!(ids, (1..=12).collect::<Vec<u64>>());
    assert!(ids.windows(2).all(|w| w[0] < w[1]));
    let rec = parse_record(&db[rows[4].offset..rows[4].offset + rows[4].length], 2).unwrap();
    assert_eq!(rec, vec![ColumnValue::Null, ColumnValue::I8(50)]);
}

#[test]
fn table_tree_query_and_count() {
    let db = three_level_database();
    let header = read_db_header(&db).unwrap();
    assert_eq!(count_rows_in_table(b"n", &header, &db), Ok(12));
    let rows = read_columns(&query(&["id", "v"], "n", Some(("v", "110"))), &header, &db).unwrap();
    assert_eq!(shown(&rows), vec![row(11, &["11", "110"])]);
}

/// Index tree: interior root page 3 with leaf children 4 and 5, over the
/// names of the rows of table page 2.
fn indexed_database() -> Vec<u8> {
    let names = ["ant", "bee", "cat", "dog", "eel", "fox", "gnu"];
    // rowids in an order unlike the names' order
    let ids = [5i64, 3, 7, 1, 6, 2, 4];
    let mut by_rowid: Vec<(i64, &str)> = ids.iter().cloned().zip(names.iter().cloned()).collect();
    by_rowid.sort();
    let cells: Vec<Vec<u8>> = by_rowid
        .iter()
        .map(|(id, n)| table_leaf_cell(*id as u64, &record(&[Val::Null, Val::Text(n)])))
        .collect();
    let key = |i: usize| record(&[Val::Text(names[i]), Val::Int(ids[i])]);
    let left = page(10, 0, &[index_leaf_cell(&key(0)), index_leaf_cell(&key(1))], None);
    let right = page(10, 0, &[index_leaf_cell(&key(3)), index_leaf_cell(&key(4)), index_leaf_cell(&key(5)), index_leaf_cell(&key(6))], None);
    let root = page(2, 0, &[index_interior_cell(4, &key(2))], Some(5));
    let catalog = vec![
        catalog_row("table", "animals", "animals", 2, "CREATE TABLE animals (id integer primary key, name text)"),
        catalog_row("index", "animals_name", "animals", 3, "CREATE INDEX animals_name on animals (name)"),
    ];
    database(&catalog, vec![page(13, 0, &cells, None), root, left, right])
}

#[test]
fn index_tree_keys_ascend_and_point_to_rows() {
    let db = indexed_database();
    let keys = index_entries(&db, PAGE_SIZE as u16, 3, 2).unwrap();
    let names: Vec<Vec<u8>> = keys.iter().map(|k| k[0].display().unwrap()).collect();
    assert_eq!(names.len(), 7);
    assert!(names.windows(2).all(|w| w[0] < w[1]));
    let rows = table_rows(&db, PAGE_SIZE as u16, 2).unwrap();
    for k in &keys {
        let id = k[1].read_usize().unwrap() as u64;
        let r = rows.iter().find(|r| r.rowid == id).unwrap();
        let rec = parse_record(&db[r.offset..r.offset + r.length], 2).unwrap();
        assert_eq!(rec[1], k[0]);
    }
}

#[test]
fn index_lookup_on_tree() {
    let db = indexed_database();
    let header = read_db_header(&db).unwrap();
    for name in ["ant", "cat", "gnu", "yak"] {
        let q = query(&["id", "name"], "animals", Some(("name", name)));
        let scanned = read_columns(&q, &header, &db).unwrap();
        let indexed = read_index(&db, &q, &header).unwrap();
        assert_eq!(shown(&indexed), shown(&scanned));
    }
    let q = query(&["id"], "animals", Some(("name", "cat")));
    assert_eq!(shown(&run_query(&db, &header, &q).unwrap()), vec![row(7, &["7"])]);
}

#[test]
fn overflowing_payload_is_unsupported() {
    let mut cell = encode_varint(600);
    cell.extend(encode_varint(1));
    cell.extend(vec![0u8; 20]);
    let catalog = vec![catalog_row("table", "t", "t", 2, "CREATE TABLE t (x)")];
    let db = database(&catalog, vec![page(13, 0, &[cell], None)]);
    assert_eq!(table_rows(&db, PAGE_SIZE as u16, 2).unwrap_err(), DbError::Unsupported);
}

#[test]
fn malformed_trees_fail() {
    // an interior page whose right-most child is itself
    let catalog = vec![catalog_row("table", "t", "t", 2, "CREATE TABLE t (x)")];
    let db = database(&catalog, vec![page(5, 0, &[], Some(2))]);
    assert_eq!(table_rows(&db, PAGE_SIZE as u16, 2).unwrap_err(), DbError::Format);
    // an index page inside a table tree
    let db = database(&catalog, vec![page(10, 0, &[], None)]);
    assert_eq!(table_rows(&db, PAGE_SIZE as u16, 2).unwrap_err(), DbError::Format);
    // a page past the end of the file
    assert_eq!(table_rows(&db, PAGE_SIZE as u16, 9).unwrap_err(), DbError::Format);
    assert_eq!(table_rows(&db, PAGE_SIZE as u16, 0).unwrap_err(), DbError::Format);
}

#[test]
fn negative_and_large_integers_show_signed() {
    let cells = vec![table_leaf_cell(1, &record(&[Val::Int(-3), Val::Int(100000)]))];
    let catalog = vec![catalog_row("table", "t", "t", 2, "CREATE TABLE t (a int, b int)")];
    let db = database(&catalog, vec![page(13, 0, &cells, None)]);
    let header = read_db_header(&db).unwrap();
    let rows = read_columns(&query(&["a", "b"], "t", Some(("a", "-3"))), &header, &db).unwrap();
    assert_eq!(shown(&rows), vec![row(1, &["-3", "100000"])]);
}

#[test]
fn small_page_size_loads() {
    let catalog = vec![catalog_row("table", "t", "t", 2, "CREATE TABLE t (x)")];
    let cells = vec![table_leaf_cell(1, &record(&[Val::Int(9)]))];
    let db = sized_database(256, &catalog, vec![sized_page(256, 13, 0, &cells, None)]);
    let header = read_db_header(&db).unwrap();
    assert_eq!(header.page_size, 256);
    assert_eq!(header.schemas.len(), 1);
    let rows = read_columns(&query(&["x"], "t", None), &header, &db).unwrap();
    assert_eq!(shown(&rows), vec![row(1, &["9"])]);
}

#[test]
fn filter_on_id_compares_the_declared_column() {
    let db = fruit_database(false);
    let header = read_db_header(&db).unwrap();
    // the declared column "id" holds null, shown as empty text
    let none = read_columns(&query(&["name"], "fruit", Some(("id", "2"))), &header, &db).unwrap();
    assert!(none.is_empty());
    let all = read_columns(&query(&["name"], "fruit", Some(("id", ""))), &header, &db).unwrap();
    assert_eq!(all.len(), 3);
    // a table that declares no column "id"
    let cells = vec![table_leaf_cell(1, &record(&[Val::Int(1)]))];
    let catalog = vec![catalog_row("table", "t", "t", 2, "CREATE TABLE t (a int)")];
    let db = database(&catalog, vec![page(13, 0, &cells, None)]);
    let header = read_db_header(&db).unwrap();
    let e = read_columns(&query(&["id"], "t", Some(("id", "1"))), &header, &db).unwrap_err();
    assert_eq!(e, DbError::NotFound);
    let ok = read_columns(&query(&["id", "a"], "t", None), &header, &db).unwrap();
    assert_eq!(shown(&ok), vec![row(1, &["1", "1"])]);
}

#[test]
fn index_lookup_needs_declared_filter_column() {
    let db = indexed_database();
    let header = read_db_header(&db).unwrap();
    let q = query(&["id"], "animals", Some(("colour", "red")));
    assert_eq!(read_index(&db, &q, &header).unwrap_err(), DbError::NotFound);
    assert_eq!(run_query(&db, &header, &q).unwrap_err(), DbError::NotFound);
}

#[test]
fn payload_past_its_page_is_unsupported() {
    // the cell sits at the end of page 2 and declares more bytes than the
    // page has left; page 3 follows in the file
    let mut cell = encode_varint(100);
    cell.extend(encode_varint(1));
    cell.extend(vec![0u8; 20]);
    let catalog = vec![catalog_row("table", "t", "t", 2, "CREATE TABLE t (x)")];
    let db = database(&catalog, vec![page(13, 0, &[cell], None), page(13, 0, &[], None)]);
    assert_eq!(table_rows(&db, PAGE_SIZE as u16, 2).unwrap_err(), DbError::Unsupported);
}

#[test]
fn index_key_past_its_page_is_unsupported() {
    let mut cell = encode_varint(100);
    cell.extend(vec![0u8; 20]);
    let catalog = vec![catalog_row("table", "t", "t", 2, "CREATE TABLE t (x)")];
    let db = database(&catalog, vec![page(10, 0, &[cell], None), page(13, 0, &[], None)]);
    assert_eq!(index_entries(&db, PAGE_SIZE as u16, 2, 2).unwrap_err(), DbError::Unsupported);
}
