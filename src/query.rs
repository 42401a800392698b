use vstd::prelude::*;
use std::collections::HashSet;
use vstd::slice::slice_subrange;

use crate::btree::{
    index_entries, index_walk, keys_view, rows_in_bounds, table_rows, table_walk, RecordMeta,
    DEPTH_LIMIT, FILE_HEADER_LEN,
};
use crate::error::DbError;
use crate::header::{be16, read_u16_be};
use crate::record::{
    display_spec, int_of, lemma_record_consumes_declared_span, lemma_record_prefix, parse_record,
    record_spec,
    values_view, ColumnValue, Value,
};
use crate::schema::{
    bytes_eq, column_names, column_position, find_column_positions, position_of, schema_spec,
    Schema, SchemaModel,
};

verus! {

/// Number of columns of a catalog row: kind, name, table name, root page
/// and the SQL text.
pub const CATALOG_COLUMNS: usize = 5;

/// Smallest page size that holds page 1: the file header and the header of
/// a leaf page.
pub const MIN_PAGE_SIZE: u16 = 108;

/// The page size recorded in the file header: the big-endian `u16` at
/// offset 16. A file shorter than its header is malformed, and so is a
/// page size too small to hold page 1's file header and page header; the
/// value 1, which the format uses for 65536, is not supported.
pub open spec fn page_size_spec(db: Seq<u8>) -> Result<u16, DbError> {
    if db.len() < FILE_HEADER_LEN {
        Err(DbError::Format)
    } else if be16(db, 16) == 1 {
        Err(DbError::Unsupported)
    } else if be16(db, 16) < MIN_PAGE_SIZE {
        Err(DbError::Format)
    } else {
        Ok(be16(db, 16) as u16)
    }
}

/// The bytes of the record that `meta` locates.
pub open spec fn record_bytes(db: Seq<u8>, meta: RecordMeta) -> Seq<u8> {
    db.subrange(meta.offset as int, meta.offset + meta.length)
}

/// The catalog entry that the catalog row `meta` holds.
pub open spec fn row_schema(db: Seq<u8>, meta: RecordMeta) -> Option<SchemaModel> {
    match record_spec(record_bytes(db, meta), CATALOG_COLUMNS as nat) {
        None => None,
        Some(vs) => schema_spec(vs),
    }
}

/// The catalog entries of the first `i` catalog rows.
pub open spec fn schemas_of(db: Seq<u8>, rows: Seq<RecordMeta>, i: nat) -> Result<
    Seq<SchemaModel>,
    DbError,
>
    decreases i,
{
    if i == 0 {
        Ok(Seq::empty())
    } else {
        match schemas_of(db, rows, (i - 1) as nat) {
            Err(e) => Err(e),
            Ok(ss) => match row_schema(db, rows[i - 1]) {
                None => Err(DbError::Format),
                Some(m) => Ok(ss.push(m)),
            },
        }
    }
}

/// The page size and the schema catalog of a database: one entry for each
/// row of the table B-tree rooted at page 1, in order.
pub open spec fn catalog_spec(db: Seq<u8>) -> Result<(u16, Seq<SchemaModel>), DbError> {
    match page_size_spec(db) {
        Err(e) => Err(e),
        Ok(ps) => match table_walk(db, ps as nat, 1, DEPTH_LIMIT as nat) {
            Err(e) => Err(e),
            Ok(rows) => match schemas_of(db, rows, rows.len()) {
                Err(e) => Err(e),
                Ok(ss) => Ok((ps, ss)),
            },
        },
    }
}

/// The views of a sequence of catalog entries.
pub open spec fn schemas_view(v: Seq<Schema>) -> Seq<SchemaModel> {
    v.map_values(|s: Schema| s@)
}

/// What a query needs of the database file: its page size and its catalog.
#[derive(Debug)]
pub struct DbHeader {
    pub page_size: u16,
    pub schemas: Vec<Schema>,
}

proof fn lemma_schemas_stay_failed(db: Seq<u8>, rows: Seq<RecordMeta>, i: nat, n: nat)
    requires
        i <= n,
        schemas_of(db, rows, i) is Err,
    ensures
        schemas_of(db, rows, n) == schemas_of(db, rows, i),
    decreases n - i,
{
    if i < n {
        lemma_schemas_stay_failed(db, rows, i + 1, n);
    }
}

/// Reads the page size and loads the schema catalog.
pub fn read_db_header(database: &[u8]) -> (r: Result<DbHeader, DbError>)
    ensures
        match catalog_spec(database@) {
            Ok((ps, ss)) => r is Ok && r.unwrap().page_size == ps && schemas_view(
                r.unwrap().schemas@,
            ) == ss,
            Err(e) => r == Err::<DbHeader, DbError>(e),
        },
{
    let ghost db = database@;
    let len = database.len();
    if len < FILE_HEADER_LEN {
        return Err(DbError::Format);
    }
    let page_size = read_u16_be(database, 16);
    if page_size == 1 {
        return Err(DbError::Unsupported);
    }
    if page_size < MIN_PAGE_SIZE {
        return Err(DbError::Format);
    }
    let rows = match table_rows(database, page_size, 1) {
        Ok(rows) => rows,
        Err(e) => {
            return Err(e);
        },
    };
    let mut schemas: Vec<Schema> = Vec::new();
    assert(schemas_view(schemas@) =~= Seq::<SchemaModel>::empty());
    let mut i: usize = 0;
    while i < rows.len()
        invariant
            db == database@,
            len == db.len(),
            i <= rows@.len(),
            page_size_spec(db) == Ok::<u16, DbError>(page_size),
            table_walk(db, page_size as nat, 1, DEPTH_LIMIT as nat) == Ok::<
                Seq<RecordMeta>,
                DbError,
            >(rows@),
            rows_in_bounds(rows@, db.len()),
            schemas_of(db, rows@, i as nat) == Ok::<Seq<SchemaModel>, DbError>(
                schemas_view(schemas@),
            ),
        decreases rows@.len() - i,
    {
        let meta = rows[i];
        let bytes = slice_subrange(database, meta.offset, meta.offset + meta.length);
        let entry = match parse_record(bytes, CATALOG_COLUMNS) {
            Ok(record) => Schema::parse(record),
            Err(_) => None,
        };
        match entry {
            Some(s) => {
                let ghost prev = schemas_view(schemas@);
                schemas.push(s);
                assert(schemas_view(schemas@) =~= prev.push(s@));
            },
            None => {
                proof {
                    lemma_schemas_stay_failed(db, rows@, (i + 1) as nat, rows@.len());
                }
                return Err(DbError::Format);
            },
        }
        i = i + 1;
    }
    Ok(DbHeader { page_size, schemas })
}

/// The word `table`.
pub open spec fn word_table() -> Seq<u8> {
    seq![116u8, 97u8, 98u8, 108u8, 101u8]
}

/// The word `index`.
pub open spec fn word_index() -> Seq<u8> {
    seq![105u8, 110u8, 100u8, 101u8, 120u8]
}

/// The word `id`: the name by which a query asks for the rowid.
pub open spec fn word_id() -> Seq<u8> {
    seq![105u8, 100u8]
}

fn is_word_table(k: &[u8]) -> (r: bool)
    ensures
        r == (k@ == word_table()),
{
    let r = k.len() == 5 && k[0] == 116 && k[1] == 97 && k[2] == 98 && k[3] == 108 && k[4] == 101;
    proof {
        if r {
            assert(k@ =~= word_table());
        }
    }
    r
}

fn is_word_index(k: &[u8]) -> (r: bool)
    ensures
        r == (k@ == word_index()),
{
    let r = k.len() == 5 && k[0] == 105 && k[1] == 110 && k[2] == 100 && k[3] == 101 && k[4]
        == 120;
    proof {
        if r {
            assert(k@ =~= word_index());
        }
    }
    r
}

fn is_word_id(k: &[u8]) -> (r: bool)
    ensures
        r == (k@ == word_id()),
{
    let r = k.len() == 2 && k[0] == 105 && k[1] == 100;
    proof {
        if r {
            assert(k@ =~= word_id());
        }
    }
    r
}

/// Where a projected or filtered column comes from.
#[derive(Debug, Clone, Copy, PartialEq, Eq, Structural)]
pub enum ColumnSource {
    /// The row's rowid.
    RowId,
    /// The record's column at this position.
    Position(usize),
}

/// The source that the column name `c` denotes among the declared `names`:
/// `id` is the rowid, another name its declared position.
pub open spec fn source_of(names: Seq<Seq<u8>>, c: Seq<u8>) -> Option<ColumnSource> {
    if c == word_id() {
        Some(ColumnSource::RowId)
    } else {
        match position_of(names, c) {
            Some(p) => Some(ColumnSource::Position(p as usize)),
            None => None,
        }
    }
}

/// The sources of the first `i` column names of `cols`, or `None` where
/// one of them is not declared.
pub open spec fn sources_of(names: Seq<Seq<u8>>, cols: Seq<Seq<u8>>, i: nat) -> Option<
    Seq<ColumnSource>,
>
    decreases i,
{
    if i == 0 {
        Some(Seq::empty())
    } else {
        match sources_of(names, cols, (i - 1) as nat) {
            None => None,
            Some(srcs) => match source_of(names, cols[i - 1]) {
                None => None,
                Some(src) => Some(srcs.push(src)),
            },
        }
    }
}

/// Number of record columns that a source needs decoded.
pub open spec fn source_need(src: ColumnSource) -> nat {
    match src {
        ColumnSource::RowId => 0,
        ColumnSource::Position(p) => (p + 1) as nat,
    }
}

/// Number of record columns that the sources `srcs` and the filter source
/// `f` need decoded.
pub open spec fn needed(srcs: Seq<ColumnSource>, f: Option<ColumnSource>) -> nat
    decreases srcs.len(),
{
    if srcs.len() == 0 {
        match f {
            Some(src) => source_need(src),
            None => 0,
        }
    } else {
        let rest = needed(srcs.drop_last(), f);
        let last = source_need(srcs.last());
        if last > rest {
            last
        } else {
            rest
        }
    }
}

/// Whether every position that `srcs` names is below `n`.
pub open spec fn sources_below(srcs: Seq<ColumnSource>, n: nat) -> bool {
    forall|j: int| 0 <= j < srcs.len() ==> source_need(#[trigger] srcs[j]) <= n
}

/// The rowid as a column value: the signed 64-bit integer that its bits
/// stand for.
pub open spec fn rowid_value(r: u64) -> Value {
    Value::I64(
        (if r >= 0x8000_0000_0000_0000 {
            r - 0x1_0000_0000_0000_0000
        } else {
            r as int
        }) as i64,
    )
}

/// The value that `src` takes in the row with rowid `rowid` and decoded
/// columns `vals`.
pub open spec fn source_value(src: ColumnSource, rowid: u64, vals: Seq<Value>) -> Value {
    match src {
        ColumnSource::RowId => rowid_value(rowid),
        ColumnSource::Position(p) => vals[p as int],
    }
}

/// A result row, as the contracts speak of it.
pub struct RowModel {
    pub rowid: u64,
    pub values: Seq<Value>,
}

/// One row of a query's result: the rowid, and the projected values in the
/// order the query asked for them.
#[derive(Debug)]
pub struct QueryRow {
    pub rowid: u64,
    pub values: Vec<ColumnValue>,
}

impl View for QueryRow {
    type V = RowModel;

    open spec fn view(&self) -> RowModel {
        RowModel { rowid: self.rowid, values: values_view(self.values@) }
    }
}

/// The views of a sequence of result rows.
pub open spec fn rows_view(v: Seq<QueryRow>) -> Seq<RowModel> {
    v.map_values(|r: QueryRow| r@)
}

/// The first `ncols` columns of the record that `meta` locates; nothing is
/// decoded where no column is needed.
pub open spec fn row_values(db: Seq<u8>, meta: RecordMeta, ncols: nat) -> Option<Seq<Value>> {
    if ncols == 0 {
        Some(Seq::empty())
    } else {
        record_spec(record_bytes(db, meta), ncols)
    }
}

/// What the row `meta` gives to a query: nothing where `keep` leaves its
/// rowid out or where the filter source's text differs from `literal`;
/// otherwise the row with the values of `srcs`.
pub open spec fn select_row(
    db: Seq<u8>,
    meta: RecordMeta,
    srcs: Seq<ColumnSource>,
    f: Option<ColumnSource>,
    literal: Seq<u8>,
    keep: Option<Set<u64>>,
) -> Result<Option<RowModel>, DbError> {
    if keep is Some && !keep.unwrap().contains(meta.rowid) {
        Ok(None)
    } else {
        match row_values(db, meta, needed(srcs, f)) {
            None => Err(DbError::Format),
            Some(vals) => if f is Some && display_spec(source_value(f.unwrap(), meta.rowid, vals))
                != Some(literal) {
                Ok(None)
            } else {
                Ok(
                    Some(
                        RowModel {
                            rowid: meta.rowid,
                            values: srcs.map_values(
                                |src: ColumnSource| source_value(src, meta.rowid, vals),
                            ),
                        },
                    ),
                )
            },
        }
    }
}

/// What the first `i` of `rows` give to a query, in order.
pub open spec fn select_rows(
    db: Seq<u8>,
    rows: Seq<RecordMeta>,
    i: nat,
    srcs: Seq<ColumnSource>,
    f: Option<ColumnSource>,
    literal: Seq<u8>,
    keep: Option<Set<u64>>,
) -> Result<Seq<RowModel>, DbError>
    decreases i,
{
    if i == 0 {
        Ok(Seq::empty())
    } else {
        match select_rows(db, rows, (i - 1) as nat, srcs, f, literal, keep) {
            Err(e) => Err(e),
            Ok(out) => match select_row(db, rows[i - 1], srcs, f, literal, keep) {
                Err(e) => Err(e),
                Ok(None) => Ok(out),
                Ok(Some(row)) => Ok(out.push(row)),
            },
        }
    }
}

/// The rowids that a selection keeps, as the contracts speak of them.
pub open spec fn keep_view(keep: Option<&HashSet<u64>>) -> Option<Set<u64>> {
    match keep {
        Some(k) => Some(k@),
        None => None,
    }
}

fn rowid_column(r: u64) -> (v: ColumnValue)
    ensures
        v@ == rowid_value(r),
{
    if r >= 0x8000_0000_0000_0000 {
        ColumnValue::I64(((r - 0x8000_0000_0000_0000) as i64) + i64::MIN)
    } else {
        ColumnValue::I64(r as i64)
    }
}

fn needed_exec(srcs: &Vec<ColumnSource>, f: Option<ColumnSource>, bound: usize) -> (r: usize)
    requires
        sources_below(srcs@, bound as nat),
        f is Some ==> source_need(f.unwrap()) <= bound,
    ensures
        r == needed(srcs@, f),
        r <= bound,
{
    let mut n: usize = match f {
        Some(ColumnSource::Position(p)) => p + 1,
        _ => 0,
    };
    let mut i: usize = 0;
    while i < srcs.len()
        invariant
            i <= srcs@.len(),
            sources_below(srcs@, bound as nat),
            n <= bound,
            n == needed(srcs@.take(i as int), f),
        decreases srcs@.len() - i,
    {
        assert(srcs@.take(i + 1).drop_last() =~= srcs@.take(i as int));
        assert(source_need(srcs@[i as int]) <= bound);
        match srcs[i] {
            ColumnSource::Position(p) => {
                if p + 1 > n {
                    n = p + 1;
                }
            },
            ColumnSource::RowId => {},
        }
        i = i + 1;
    }
    assert(srcs@.take(srcs@.len() as int) =~= srcs@);
    n
}

proof fn lemma_needed_bounds(srcs: Seq<ColumnSource>, f: Option<ColumnSource>)
    ensures
        forall|j: int| 0 <= j < srcs.len() ==> source_need(#[trigger] srcs[j]) <= needed(srcs, f),
        f is Some ==> source_need(f.unwrap()) <= needed(srcs, f),
    decreases srcs.len(),
{
    if srcs.len() > 0 {
        lemma_needed_bounds(srcs.drop_last(), f);
        assert forall|j: int| 0 <= j < srcs.len() implies source_need(#[trigger] srcs[j]) <= needed(
            srcs,
            f,
        ) by {
            if j < srcs.len() - 1 {
                assert(srcs[j] == srcs.drop_last()[j]);
            }
        }
    }
}

/// Applies the query's selection to one row.
fn select_one(
    db: &[u8],
    meta: RecordMeta,
    srcs: &Vec<ColumnSource>,
    f: Option<ColumnSource>,
    literal: &[u8],
    keep: Option<&HashSet<u64>>,
    ncols: usize,
) -> (r: Result<Option<QueryRow>, DbError>)
    requires
        meta.offset + meta.length <= db@.len(),
        ncols == needed(srcs@, f),
    ensures
        match select_row(db@, meta, srcs@, f, literal@, keep_view(keep)) {
            Ok(Some(row)) => r is Ok && r.unwrap() is Some && r.unwrap().unwrap()@ == row,
            Ok(None) => r == Ok::<Option<QueryRow>, DbError>(None),
            Err(e) => r == Err::<Option<QueryRow>, DbError>(e),
        },
{
    broadcast use vstd::std_specs::hash::group_hash_axioms;

    let len = db.len();
    match keep {
        Some(ids) => {
            if !ids.contains(&meta.rowid) {
                return Ok(None);
            }
        },
        None => {},
    }
    let vals: Vec<ColumnValue> = if ncols == 0 {
        Vec::new()
    } else {
        assert(meta.offset + meta.length <= len);
        let bytes = slice_subrange(db, meta.offset, meta.offset + meta.length);
        match parse_record(bytes, ncols) {
            Ok(v) => {
                proof {
                    lemma_record_consumes_declared_span(bytes@, ncols as nat);
                }
                v
            },
            Err(e) => {
                return Err(e);
            },
        }
    };
    let ghost vs = values_view(vals@);
    proof {
        if ncols == 0 {
            assert(vs =~= Seq::<Value>::empty());
        }
    }
    assert(row_values(db@, meta, ncols as nat) == Some(vs));
    assert(vs.len() == ncols);
    proof {
        lemma_needed_bounds(srcs@, f);
    }
    match f {
        Some(src) => {
            let shown = match src {
                ColumnSource::RowId => rowid_column(meta.rowid).display(),
                ColumnSource::Position(p) => vals[p].display(),
            };
            let same = match shown {
                Some(t) => bytes_eq(t.as_slice(), literal),
                None => false,
            };
            if !same {
                return Ok(None);
            }
        },
        None => {},
    }
    let mut values: Vec<ColumnValue> = Vec::new();
    let mut i: usize = 0;
    while i < srcs.len()
        invariant
            i <= srcs@.len(),
            vs == values_view(vals@),
            vs.len() == ncols,
            ncols == needed(srcs@, f),
            forall|j: int| 0 <= j < srcs@.len() ==> source_need(#[trigger] srcs@[j]) <= ncols,
            values_view(values@) == srcs@.take(i as int).map_values(
                |src: ColumnSource| source_value(src, meta.rowid, vs),
            ),
        decreases srcs@.len() - i,
    {
        let v = match srcs[i] {
            ColumnSource::RowId => rowid_column(meta.rowid),
            ColumnSource::Position(p) => {
                assert(source_need(srcs@[i as int]) <= ncols);
                vals[p].copied()
            },
        };
        proof {
            assert(v@ == source_value(srcs@[i as int], meta.rowid, vs));
        }
        let ghost prev = values_view(values@);
        values.push(v);
        proof {
            assert(values_view(values@) =~= prev.push(v@));
            assert(srcs@.take(i + 1).map_values(|src: ColumnSource| source_value(src, meta.rowid, vs))
                =~= srcs@.take(i as int).map_values(
                |src: ColumnSource| source_value(src, meta.rowid, vs),
            ).push(v@));
        }
        i = i + 1;
    }
    assert(srcs@.take(srcs@.len() as int) =~= srcs@);
    assert(values_view(values@) =~= srcs@.map_values(
        |src: ColumnSource| source_value(src, meta.rowid, vs),
    ));
    Ok(Some(QueryRow { rowid: meta.rowid, values }))
}

proof fn lemma_select_rows_stay_failed(
    db: Seq<u8>,
    rows: Seq<RecordMeta>,
    i: nat,
    n: nat,
    srcs: Seq<ColumnSource>,
    f: Option<ColumnSource>,
    literal: Seq<u8>,
    keep: Option<Set<u64>>,
)
    requires
        i <= n,
        select_rows(db, rows, i, srcs, f, literal, keep) is Err,
    ensures
        select_rows(db, rows, n, srcs, f, literal, keep) == select_rows(
            db,
            rows,
            i,
            srcs,
            f,
            literal,
            keep,
        ),
    decreases n - i,
{
    if i < n {
        lemma_select_rows_stay_failed(db, rows, i + 1, n, srcs, f, literal, keep);
    }
}

/// Applies the query's selection to each of `rows`, in order.
fn select_all(
    db: &[u8],
    rows: &Vec<RecordMeta>,
    srcs: &Vec<ColumnSource>,
    f: Option<ColumnSource>,
    literal: &[u8],
    keep: Option<&HashSet<u64>>,
    ncols: usize,
) -> (r: Result<Vec<QueryRow>, DbError>)
    requires
        rows_in_bounds(rows@, db@.len()),
        ncols == needed(srcs@, f),
    ensures
        match select_rows(db@, rows@, rows@.len(), srcs@, f, literal@, keep_view(keep)) {
            Ok(out) => r is Ok && rows_view(r.unwrap()@) == out,
            Err(e) => r == Err::<Vec<QueryRow>, DbError>(e),
        },
{
    let ghost k = keep_view(keep);
    let mut out: Vec<QueryRow> = Vec::new();
    assert(rows_view(out@) =~= Seq::<RowModel>::empty());
    let mut i: usize = 0;
    while i < rows.len()
        invariant
            i <= rows@.len(),
            k == keep_view(keep),
            rows_in_bounds(rows@, db@.len()),
            ncols == needed(srcs@, f),
            select_rows(db@, rows@, i as nat, srcs@, f, literal@, k) == Ok::<
                Seq<RowModel>,
                DbError,
            >(rows_view(out@)),
        decreases rows@.len() - i,
    {
        assert(rows@[i as int].offset + rows@[i as int].length <= db@.len());
        match select_one(db, rows[i], srcs, f, literal, keep, ncols) {
            Ok(Some(row)) => {
                let ghost prev = rows_view(out@);
                out.push(row);
                assert(rows_view(out@) =~= prev.push(row@));
            },
            Ok(None) => {},
            Err(e) => {
                proof {
                    lemma_select_rows_stay_failed(
                        db@,
                        rows@,
                        (i + 1) as nat,
                        rows@.len(),
                        srcs@,
                        f,
                        literal@,
                        k,
                    );
                }
                return Err(e);
            },
        }
        i = i + 1;
    }
    Ok(out)
}

/// A query: the columns to project, the table, and at most one equality
/// filter, as the contracts speak of it.
pub struct QueryModel {
    pub columns: Seq<Seq<u8>>,
    pub table: Seq<u8>,
    /// The filter's column and the text that its value must have.
    pub filter: Option<(Seq<u8>, Seq<u8>)>,
}

/// An equality filter: rows whose `column` shows as `literal`.
#[derive(Debug, Clone)]
pub struct Filter {
    pub column: Vec<u8>,
    pub literal: Vec<u8>,
}

/// A structured query: the columns to project, in order, the table, and
/// at most one equality filter.
#[derive(Debug, Clone)]
pub struct Query {
    pub columns: Vec<Vec<u8>>,
    pub table: Vec<u8>,
    pub filter: Option<Filter>,
}

/// The views of a sequence of byte strings.
pub open spec fn texts_view(v: Seq<Vec<u8>>) -> Seq<Seq<u8>> {
    v.map_values(|t: Vec<u8>| t@)
}

impl View for Query {
    type V = QueryModel;

    open spec fn view(&self) -> QueryModel {
        QueryModel {
            columns: texts_view(self.columns@),
            table: self.table@,
            filter: match self.filter {
                Some(f) => Some((f.column@, f.literal@)),
                None => None,
            },
        }
    }
}

/// Position of the first catalog entry from `i` on that is the table `t`.
pub open spec fn table_from(ss: Seq<SchemaModel>, t: Seq<u8>, i: nat) -> Option<nat>
    decreases ss.len() - i,
{
    if i >= ss.len() {
        None
    } else if ss[i as int].kind == word_table() && ss[i as int].name == t {
        Some(i)
    } else {
        table_from(ss, t, i + 1)
    }
}

/// Whether catalog entry `m` is an index of table `t` whose first column
/// is `c`.
pub open spec fn indexes_column(m: SchemaModel, t: Seq<u8>, c: Seq<u8>) -> bool {
    &&& m.kind == word_index()
    &&& m.table_name == t
    &&& column_names(m.sql).len() > 0
    &&& column_names(m.sql)[0] == c
}

/// Position of the first catalog entry from `i` on that is an index of
/// table `t` whose first column is `c`.
pub open spec fn index_from(ss: Seq<SchemaModel>, t: Seq<u8>, c: Seq<u8>, i: nat) -> Option<nat>
    decreases ss.len() - i,
{
    if i >= ss.len() {
        None
    } else if indexes_column(ss[i as int], t, c) {
        Some(i)
    } else {
        index_from(ss, t, c, i + 1)
    }
}

/// Position of the catalog entry of table `table`.
fn find_table(schemas: &Vec<Schema>, table: &[u8]) -> (r: Option<usize>)
    ensures
        match table_from(schemas_view(schemas@), table@, 0) {
            Some(i) => r is Some && r.unwrap() == i && i < schemas@.len(),
            None => r is None,
        },
{
    let ghost ss = schemas_view(schemas@);
    let mut i: usize = 0;
    while i < schemas.len()
        invariant
            i <= schemas@.len(),
            ss == schemas_view(schemas@),
            table_from(ss, table@, 0) == table_from(ss, table@, i as nat),
        decreases schemas@.len() - i,
    {
        let s = &schemas[i];
        assert(ss[i as int] == s@);
        if is_word_table(s.kind.as_slice()) && bytes_eq(s.name.as_slice(), table) {
            return Some(i);
        }
        i = i + 1;
    }
    None
}

/// Position of the catalog entry of an index of table `table` whose first
/// column is `column`.
fn find_index(schemas: &Vec<Schema>, table: &[u8], column: &[u8]) -> (r: Option<usize>)
    ensures
        match index_from(schemas_view(schemas@), table@, column@, 0) {
            Some(i) => r is Some && r.unwrap() == i && i < schemas@.len(),
            None => r is None,
        },
{
    let ghost ss = schemas_view(schemas@);
    let mut i: usize = 0;
    while i < schemas.len()
        invariant
            i <= schemas@.len(),
            ss == schemas_view(schemas@),
            index_from(ss, table@, column@, 0) == index_from(ss, table@, column@, i as nat),
        decreases schemas@.len() - i,
    {
        let s = &schemas[i];
        assert(ss[i as int] == s@);
        if is_word_index(s.kind.as_slice()) && bytes_eq(s.table_name.as_slice(), table) {
            let names = find_column_positions(s.sql.as_slice());
            if names.len() > 0 {
                assert(texts_view(names@)[0] == names@[0]@);
                if bytes_eq(names[0].as_slice(), column) {
                    assert(texts_view(names@) == names@.map_values(|n: Vec<u8>| n@));
                    return Some(i);
                }
            }
        }
        i = i + 1;
    }
    None
}

proof fn lemma_position_bound(names: Seq<Seq<u8>>, n: Seq<u8>, i: nat)
    ensures
        crate::schema::position_from(names, n, i) is Some ==> crate::schema::position_from(
            names,
            n,
            i,
        ).unwrap() < names.len(),
    decreases names.len() - i,
{
    if i < names.len() {
        lemma_position_bound(names, n, i + 1);
    }
}

/// The source that the column name `c` denotes among `names`.
fn source_exec(names: &Vec<Vec<u8>>, c: &[u8]) -> (r: Option<ColumnSource>)
    ensures
        r == source_of(texts_view(names@), c@),
        r is Some ==> source_need(r.unwrap()) <= names@.len(),
{
    if is_word_id(c) {
        return Some(ColumnSource::RowId);
    }
    proof {
        lemma_position_bound(texts_view(names@), c@, 0);
        assert(texts_view(names@) == names@.map_values(|n: Vec<u8>| n@));
    }
    match column_position(names, c) {
        Some(p) => Some(ColumnSource::Position(p)),
        None => None,
    }
}

proof fn lemma_sources_stay_failed(names: Seq<Seq<u8>>, cols: Seq<Seq<u8>>, i: nat, n: nat)
    requires
        i <= n,
        sources_of(names, cols, i) is None,
    ensures
        sources_of(names, cols, n) is None,
    decreases n - i,
{
    if i < n {
        lemma_sources_stay_failed(names, cols, i + 1, n);
    }
}

/// The sources of the column names `cols`.
fn resolve_sources(names: &Vec<Vec<u8>>, cols: &Vec<Vec<u8>>) -> (r: Option<Vec<ColumnSource>>)
    ensures
        match sources_of(texts_view(names@), texts_view(cols@), cols@.len()) {
            Some(srcs) => r is Some && r.unwrap()@ == srcs && sources_below(srcs, names@.len()),
            None => r is None,
        },
{
    let ghost ns = texts_view(names@);
    let ghost cs = texts_view(cols@);
    let mut out: Vec<ColumnSource> = Vec::new();
    let mut i: usize = 0;
    while i < cols.len()
        invariant
            i <= cols@.len(),
            ns == texts_view(names@),
            cs == texts_view(cols@),
            sources_of(ns, cs, i as nat) == Some(out@),
            sources_below(out@, names@.len()),
        decreases cols@.len() - i,
    {
        assert(cs[i as int] == cols@[i as int]@);
        match source_exec(names, cols[i].as_slice()) {
            Some(src) => {
                out.push(src);
                assert(sources_below(out@, names@.len())) by {
                    assert forall|j: int| 0 <= j < out@.len() implies source_need(
                        #[trigger] out@[j],
                    ) <= names@.len() by {
                        if j < out@.len() - 1 {
                            assert(out@[j] == out@.drop_last()[j]);
                        }
                    }
                }
            },
            None => {
                proof {
                    lemma_sources_stay_failed(ns, cs, (i + 1) as nat, cols@.len());
                }
                return None;
            },
        }
        i = i + 1;
    }
    Some(out)
}

/// The filter's source among the declared `names`: the declared column's
/// position, compared by its stored value (a declared `id` too), and
/// `NotFound` where the column is not declared.
pub open spec fn filter_source(names: Seq<Seq<u8>>, f: Option<(Seq<u8>, Seq<u8>)>) -> Result<
    Option<ColumnSource>,
    DbError,
> {
    match f {
        None => Ok(None),
        Some((c, _)) => match position_of(names, c) {
            None => Err(DbError::NotFound),
            Some(p) => Ok(Some(ColumnSource::Position(p as usize))),
        },
    }
}

/// The filter's literal; empty where there is no filter.
pub open spec fn literal_of(f: Option<(Seq<u8>, Seq<u8>)>) -> Seq<u8> {
    match f {
        None => Seq::empty(),
        Some((_, lit)) => lit,
    }
}

/// A full scan of the query's table: each row in tree order, kept where the
/// filter, if any, matches, and projected onto the query's columns.
/// `NotFound` where the table, a projected column or the filter's column
/// is not declared.
pub open spec fn scan_spec(db: Seq<u8>, ps: u16, ss: Seq<SchemaModel>, q: QueryModel) -> Result<
    Seq<RowModel>,
    DbError,
> {
    match table_from(ss, q.table, 0) {
        None => Err(DbError::NotFound),
        Some(ti) => {
            let names = column_names(ss[ti as int].sql);
            match sources_of(names, q.columns, q.columns.len()) {
                None => Err(DbError::NotFound),
                Some(srcs) => match filter_source(names, q.filter) {
                    Err(e) => Err(e),
                    Ok(f) => match table_walk(
                        db,
                        ps as nat,
                        ss[ti as int].root_page as nat,
                        DEPTH_LIMIT as nat,
                    ) {
                        Err(e) => Err(e),
                        Ok(rows) => select_rows(
                            db,
                            rows,
                            rows.len(),
                            srcs,
                            f,
                            literal_of(q.filter),
                            None,
                        ),
                    },
                },
            }
        },
    }
}

/// Answers a query by a full scan of its table.
pub fn read_columns(query: &Query, db_header: &DbHeader, database: &[u8]) -> (r: Result<
    Vec<QueryRow>,
    DbError,
>)
    ensures
        match scan_spec(database@, db_header.page_size, schemas_view(db_header.schemas@), query@) {
            Ok(rows) => r is Ok && rows_view(r.unwrap()@) == rows,
            Err(e) => r == Err::<Vec<QueryRow>, DbError>(e),
        },
{
    let ghost ss = schemas_view(db_header.schemas@);
    let ti = match find_table(&db_header.schemas, query.table.as_slice()) {
        Some(ti) => ti,
        None => {
            return Err(DbError::NotFound);
        },
    };
    let t = &db_header.schemas[ti];
    assert(ss[ti as int] == t@);
    let names = find_column_positions(t.sql.as_slice());
    assert(texts_view(names@) == names@.map_values(|n: Vec<u8>| n@));
    let srcs = match resolve_sources(&names, &query.columns) {
        Some(srcs) => srcs,
        None => {
            return Err(DbError::NotFound);
        },
    };
    let (f, literal): (Option<ColumnSource>, &[u8]) = match &query.filter {
        None => (None, &[]),
        Some(flt) => match column_position(&names, flt.column.as_slice()) {
            Some(p) => (Some(ColumnSource::Position(p)), flt.literal.as_slice()),
            None => {
                return Err(DbError::NotFound);
            },
        },
    };
    assert(literal@ == literal_of(query@.filter));
    let rows = match table_rows(database, db_header.page_size, t.root_page) {
        Ok(rows) => rows,
        Err(e) => {
            return Err(e);
        },
    };
    let ncols = needed_exec(&srcs, f, names.len());
    select_all(database, &rows, &srcs, f, literal, None, ncols)
}

/// The rowid that an integer key column stands for: its 64-bit two's
/// complement bits.
pub open spec fn rowid_bits(v: int) -> u64 {
    (if v < 0 {
        v + 0x1_0000_0000_0000_0000
    } else {
        v
    }) as u64
}

/// The rowids that the first `i` index keys point to among those whose
/// first column shows as `literal`; `None` where such a key's last column
/// is no integer.
pub open spec fn matching_rowids(keys: Seq<Seq<Value>>, literal: Seq<u8>, i: nat) -> Option<
    Set<u64>,
>
    decreases i,
{
    if i == 0 {
        Some(Set::empty())
    } else {
        match matching_rowids(keys, literal, (i - 1) as nat) {
            None => None,
            Some(ids) => {
                let key = keys[i - 1];
                if key.len() > 0 && display_spec(key[0]) == Some(literal) {
                    match int_of(key.last()) {
                        None => None,
                        Some(v) => Some(ids.insert(rowid_bits(v))),
                    }
                } else {
                    Some(ids)
                }
            },
        }
    }
}

proof fn lemma_matching_stay_failed(keys: Seq<Seq<Value>>, literal: Seq<u8>, i: nat, n: nat)
    requires
        i <= n,
        matching_rowids(keys, literal, i) is None,
    ensures
        matching_rowids(keys, literal, n) is None,
    decreases n - i,
{
    if i < n {
        lemma_matching_stay_failed(keys, literal, i + 1, n);
    }
}

/// The rowids that the index keys whose first column shows as `literal`
/// point to, in key order.
fn matching_rowids_exec(keys: &Vec<Vec<ColumnValue>>, literal: &[u8]) -> (r: Option<HashSet<u64>>)
    ensures
        match matching_rowids(keys_view(keys@), literal@, keys@.len()) {
            Some(ids) => r is Some && r.unwrap()@ == ids,
            None => r is None,
        },
{
    let ghost ks = keys_view(keys@);
    broadcast use vstd::std_specs::hash::group_hash_axioms;

    let mut ids: HashSet<u64> = HashSet::new();
    let mut i: usize = 0;
    while i < keys.len()
        invariant
            i <= keys@.len(),
            ks == keys_view(keys@),
            matching_rowids(ks, literal@, i as nat) == Some(ids@),
        decreases keys@.len() - i,
    {
        let key = &keys[i];
        assert(ks[i as int] == values_view(key@));
        if key.len() > 0 {
            let shown = key[0].display();
            let same = match shown {
                Some(t) => bytes_eq(t.as_slice(), literal),
                None => false,
            };
            if same {
                let last = &key[key.len() - 1];
                assert(values_view(key@).last() == last@);
                match last.read_i64() {
                    Some(v) => {
                        let bits: u64 = if v < 0 {
                            ((v - i64::MIN) as u64) + 0x8000_0000_0000_0000
                        } else {
                            v as u64
                        };
                        ids.insert(bits);
                    },
                    None => {
                        proof {
                            lemma_matching_stay_failed(ks, literal@, (i + 1) as nat, keys@.len());
                        }
                        return None;
                    },
                }
            }
        }
        i = i + 1;
    }
    Some(ids)
}

/// An index-assisted lookup: the filter's column must be declared by the
/// query's table, and the table must have an index whose first column is
/// the filter's column. The keys of that index whose first
/// column shows as the filter's literal give a set of rowids; the table's
/// rows with those rowids, in tree order, are projected onto the query's
/// columns. `NotFound` where the table, a projected column, the filter or
/// such an index is missing.
pub open spec fn index_scan_spec(
    db: Seq<u8>,
    ps: u16,
    ss: Seq<SchemaModel>,
    q: QueryModel,
) -> Result<Seq<RowModel>, DbError> {
    match table_from(ss, q.table, 0) {
        None => Err(DbError::NotFound),
        Some(ti) => {
            let t = ss[ti as int];
            match sources_of(column_names(t.sql), q.columns, q.columns.len()) {
                None => Err(DbError::NotFound),
                Some(srcs) => match q.filter {
                    None => Err(DbError::NotFound),
                    Some((c, _)) if position_of(column_names(t.sql), c) is None => Err(
                        DbError::NotFound,
                    ),
                    Some((c, lit)) => match index_from(ss, q.table, c, 0) {
                        None => Err(DbError::NotFound),
                        Some(xi) => {
                            let ix = ss[xi as int];
                            match index_walk(
                                db,
                                ps as nat,
                                ix.root_page as nat,
                                column_names(ix.sql).len() + 1,
                                DEPTH_LIMIT as nat,
                            ) {
                                Err(e) => Err(e),
                                Ok(keys) => match matching_rowids(keys, lit, keys.len()) {
                                    None => Err(DbError::Format),
                                    Some(ids) => match table_walk(
                                        db,
                                        ps as nat,
                                        t.root_page as nat,
                                        DEPTH_LIMIT as nat,
                                    ) {
                                        Err(e) => Err(e),
                                        Ok(rows) => select_rows(
                                            db,
                                            rows,
                                            rows.len(),
                                            srcs,
                                            None,
                                            Seq::empty(),
                                            Some(ids),
                                        ),
                                    },
                                },
                            }
                        },
                    },
                },
            }
        },
    }
}

/// Answers a filtered query through an index on the filter's column.
pub fn read_index(database: &[u8], query: &Query, db_header: &DbHeader) -> (r: Result<
    Vec<QueryRow>,
    DbError,
>)
    ensures
        match index_scan_spec(
            database@,
            db_header.page_size,
            schemas_view(db_header.schemas@),
            query@,
        ) {
            Ok(rows) => r is Ok && rows_view(r.unwrap()@) == rows,
            Err(e) => r == Err::<Vec<QueryRow>, DbError>(e),
        },
{
    let ghost ss = schemas_view(db_header.schemas@);
    let ti = match find_table(&db_header.schemas, query.table.as_slice()) {
        Some(ti) => ti,
        None => {
            return Err(DbError::NotFound);
        },
    };
    let t = &db_header.schemas[ti];
    assert(ss[ti as int] == t@);
    let names = find_column_positions(t.sql.as_slice());
    assert(texts_view(names@) == names@.map_values(|n: Vec<u8>| n@));
    let srcs = match resolve_sources(&names, &query.columns) {
        Some(srcs) => srcs,
        None => {
            return Err(DbError::NotFound);
        },
    };
    let flt = match &query.filter {
        Some(flt) => flt,
        None => {
            return Err(DbError::NotFound);
        },
    };
    if column_position(&names, flt.column.as_slice()).is_none() {
        return Err(DbError::NotFound);
    }
    let xi = match find_index(&db_header.schemas, query.table.as_slice(), flt.column.as_slice()) {
        Some(xi) => xi,
        None => {
            return Err(DbError::NotFound);
        },
    };
    let ix = &db_header.schemas[xi];
    assert(ss[xi as int] == ix@);
    let key_names = find_column_positions(ix.sql.as_slice());
    assert(texts_view(key_names@) == key_names@.map_values(|n: Vec<u8>| n@));
    let sql_len = ix.sql.len();
    assert(key_names@.len() < sql_len || key_names@.len() == 0);
    let keys = match index_entries(database, db_header.page_size, ix.root_page, key_names.len() + 1) {
        Ok(keys) => keys,
        Err(e) => {
            return Err(e);
        },
    };
    let ids = match matching_rowids_exec(&keys, flt.literal.as_slice()) {
        Some(ids) => ids,
        None => {
            return Err(DbError::Format);
        },
    };
    let rows = match table_rows(database, db_header.page_size, t.root_page) {
        Ok(rows) => rows,
        Err(e) => {
            return Err(e);
        },
    };
    let ncols = needed_exec(&srcs, None, names.len());
    let empty: &[u8] = &[];
    assert(empty@ =~= Seq::<u8>::empty());
    select_all(database, &rows, &srcs, None, empty, Some(&ids), ncols)
}

/// What a query gives: through an index where it has a filter and the
/// table has an index on the filter's column, by a full scan otherwise.
pub open spec fn query_spec(db: Seq<u8>, ps: u16, ss: Seq<SchemaModel>, q: QueryModel) -> Result<
    Seq<RowModel>,
    DbError,
> {
    match q.filter {
        Some((c, _)) => if index_from(ss, q.table, c, 0) is Some {
            index_scan_spec(db, ps, ss, q)
        } else {
            scan_spec(db, ps, ss, q)
        },
        None => scan_spec(db, ps, ss, q),
    }
}

/// Answers a query, through an index where one serves its filter.
pub fn run_query(database: &[u8], db_header: &DbHeader, query: &Query) -> (r: Result<
    Vec<QueryRow>,
    DbError,
>)
    ensures
        match query_spec(database@, db_header.page_size, schemas_view(db_header.schemas@), query@) {
            Ok(rows) => r is Ok && rows_view(r.unwrap()@) == rows,
            Err(e) => r == Err::<Vec<QueryRow>, DbError>(e),
        },
{
    match &query.filter {
        Some(flt) => {
            if find_index(&db_header.schemas, query.table.as_slice(), flt.column.as_slice()).is_some() {
                read_index(database, query, db_header)
            } else {
                read_columns(query, db_header, database)
            }
        },
        None => read_columns(query, db_header, database),
    }
}

/// The number of rows of table `t`: the length of its B-tree's row
/// sequence, which no record decoding enters.
pub open spec fn count_spec(db: Seq<u8>, ps: u16, ss: Seq<SchemaModel>, t: Seq<u8>) -> Result<
    nat,
    DbError,
> {
    match table_from(ss, t, 0) {
        None => Err(DbError::NotFound),
        Some(ti) => match table_walk(db, ps as nat, ss[ti as int].root_page as nat, DEPTH_LIMIT as nat) {
            Err(e) => Err(e),
            Ok(rows) => Ok(rows.len()),
        },
    }
}

/// Counts the rows of table `table`.
pub fn count_rows_in_table(table: &[u8], db_header: &DbHeader, database: &[u8]) -> (r: Result<
    usize,
    DbError,
>)
    ensures
        match count_spec(database@, db_header.page_size, schemas_view(db_header.schemas@), table@) {
            Ok(n) => r is Ok && r.unwrap() == n,
            Err(e) => r == Err::<usize, DbError>(e),
        },
{
    let ghost ss = schemas_view(db_header.schemas@);
    let ti = match find_table(&db_header.schemas, table) {
        Some(ti) => ti,
        None => {
            return Err(DbError::NotFound);
        },
    };
    let t = &db_header.schemas[ti];
    assert(ss[ti as int] == t@);
    match table_rows(database, db_header.page_size, t.root_page) {
        Ok(rows) => Ok(rows.len()),
        Err(e) => Err(e),
    }
}

/// The word `sqlite`, with which the names of the format's own tables begin.
pub open spec fn word_sqlite() -> Seq<u8> {
    seq![115u8, 113u8, 108u8, 105u8, 116u8, 101u8]
}

/// Whether catalog entry `m` is a table of the database's user: a table
/// whose table name does not begin with `sqlite`.
pub open spec fn is_user_table(m: SchemaModel) -> bool {
    m.kind == word_table() && !(m.table_name.len() >= 6 && m.table_name.take(6) == word_sqlite())
}

/// The names of the user tables among the first `i` catalog entries.
pub open spec fn user_tables(ss: Seq<SchemaModel>, i: nat) -> Seq<Seq<u8>>
    decreases i,
{
    if i == 0 {
        Seq::empty()
    } else if i > ss.len() {
        user_tables(ss, (i - 1) as nat)
    } else if is_user_table(ss[i - 1]) {
        user_tables(ss, (i - 1) as nat).push(ss[i - 1].name)
    } else {
        user_tables(ss, (i - 1) as nat)
    }
}

fn starts_with_sqlite(t: &[u8]) -> (r: bool)
    ensures
        r == (t@.len() >= 6 && t@.take(6) == word_sqlite()),
{
    let r = t.len() >= 6 && t[0] == 115 && t[1] == 113 && t[2] == 108 && t[3] == 105 && t[4] == 116
        && t[5] == 101;
    proof {
        if t@.len() >= 6 && t@.take(6) == word_sqlite() {
            assert(t@.take(6)[0] == 115 && t@.take(6)[5] == 101);
        }
        if r {
            assert(t@.take(6) =~= word_sqlite());
        }
    }
    r
}

/// The names of the catalog's user tables, in catalog order.
pub fn table_names(db_header: &DbHeader) -> (r: Vec<Vec<u8>>)
    ensures
        texts_view(r@) == user_tables(
            schemas_view(db_header.schemas@),
            db_header.schemas@.len(),
        ),
{
    let ghost ss = schemas_view(db_header.schemas@);
    let mut out: Vec<Vec<u8>> = Vec::new();
    let mut i: usize = 0;
    while i < db_header.schemas.len()
        invariant
            i <= db_header.schemas@.len(),
            ss == schemas_view(db_header.schemas@),
            texts_view(out@) == user_tables(ss, i as nat),
        decreases db_header.schemas@.len() - i,
    {
        let s = &db_header.schemas[i];
        assert(ss[i as int] == s@);
        if is_word_table(s.kind.as_slice()) && !starts_with_sqlite(s.table_name.as_slice()) {
            let ghost prev = texts_view(out@);
            out.push(s.name.clone());
            assert(texts_view(out@) =~= prev.push(s.name@));
        }
        i = i + 1;
    }
    out
}

/// Whether the index that serves a filtered query agrees with its table:
/// the table, the filter's column, the index, its keys and the table's rows
/// are all found, and each row's rowid is among those that the matching
/// keys point to exactly when the row's filter column shows as the literal.
pub open spec fn index_agrees(db: Seq<u8>, ps: u16, ss: Seq<SchemaModel>, q: QueryModel) -> bool {
    match (table_from(ss, q.table, 0), q.filter) {
        (Some(ti), Some((c, lit))) => {
            let t = ss[ti as int];
            let names = column_names(t.sql);
            match (
                position_of(names, c),
                index_from(ss, q.table, c, 0),
                sources_of(names, q.columns, q.columns.len()),
            ) {
                (Some(p), Some(xi), Some(srcs)) => {
                    let ix = ss[xi as int];
                    let f = ColumnSource::Position(p as usize);
                    match (
                        index_walk(
                            db,
                            ps as nat,
                            ix.root_page as nat,
                            column_names(ix.sql).len() + 1,
                            DEPTH_LIMIT as nat,
                        ),
                        table_walk(db, ps as nat, t.root_page as nat, DEPTH_LIMIT as nat),
                    ) {
                        (Ok(keys), Ok(rows)) => match matching_rowids(keys, lit, keys.len()) {
                            Some(ids) => rows_match_ids(db, rows, srcs, f, lit, ids),
                            None => false,
                        },
                        _ => false,
                    }
                },
                _ => false,
            }
        },
        _ => false,
    }
}

/// Whether each of `rows` has its rowid in `ids` exactly when the value of
/// `f` in it shows as `literal`.
pub open spec fn rows_match_ids(
    db: Seq<u8>,
    rows: Seq<RecordMeta>,
    srcs: Seq<ColumnSource>,
    f: ColumnSource,
    literal: Seq<u8>,
    ids: Set<u64>,
) -> bool {
    forall|j: int|
        0 <= j < rows.len() ==> (ids.contains(#[trigger] rows[j].rowid) <==> row_shows(
            db,
            rows[j],
            srcs,
            f,
            literal,
        ))
}

/// Whether the value of `f` in row `meta`, decoded as a query with sources
/// `srcs` and filter `f` decodes it, shows as `literal`.
pub open spec fn row_shows(
    db: Seq<u8>,
    meta: RecordMeta,
    srcs: Seq<ColumnSource>,
    f: ColumnSource,
    literal: Seq<u8>,
) -> bool {
    match row_values(db, meta, needed(srcs, Some(f))) {
        Some(vals) => display_spec(source_value(f, meta.rowid, vals)) == Some(literal),
        None => false,
    }
}

proof fn lemma_needed_grows(srcs: Seq<ColumnSource>, f: Option<ColumnSource>)
    ensures
        needed(srcs, None) <= needed(srcs, f),
    decreases srcs.len(),
{
    if srcs.len() > 0 {
        lemma_needed_grows(srcs.drop_last(), f);
    }
}

proof fn lemma_select_row_agrees(
    db: Seq<u8>,
    meta: RecordMeta,
    srcs: Seq<ColumnSource>,
    f: ColumnSource,
    literal: Seq<u8>,
    ids: Set<u64>,
)
    requires
        select_row(db, meta, srcs, Some(f), literal, None) is Ok,
        ids.contains(meta.rowid) <==> row_shows(db, meta, srcs, f, literal),
    ensures
        select_row(db, meta, srcs, None, Seq::empty(), Some(ids)) == select_row(
            db,
            meta,
            srcs,
            Some(f),
            literal,
            None,
        ),
{
    let m = needed(srcs, Some(f));
    let n = needed(srcs, None);
    let vb = row_values(db, meta, m).unwrap();
    if ids.contains(meta.rowid) {
        lemma_needed_grows(srcs, Some(f));
        lemma_needed_bounds(srcs, None);
        if n > 0 {
            lemma_record_prefix(record_bytes(db, meta), n, m);
            lemma_record_consumes_declared_span(record_bytes(db, meta), m);
        } else {
            assert(vb.take(0) =~= Seq::<Value>::empty());
        }
        let vs = row_values(db, meta, n).unwrap();
        assert(vs == vb.take(n as int));
        assert(srcs.map_values(|src: ColumnSource| source_value(src, meta.rowid, vs))
            =~= srcs.map_values(|src: ColumnSource| source_value(src, meta.rowid, vb))) by {
            assert forall|j: int| 0 <= j < srcs.len() implies source_value(
                #[trigger] srcs[j],
                meta.rowid,
                vs,
            ) == source_value(srcs[j], meta.rowid, vb) by {
                assert(source_need(srcs[j]) <= n);
                match srcs[j] {
                    ColumnSource::Position(k) => {
                        assert(vs[k as int] == vb[k as int]);
                    },
                    ColumnSource::RowId => {},
                }
            }
        }
    }
}

proof fn lemma_select_rows_agree(
    db: Seq<u8>,
    rows: Seq<RecordMeta>,
    i: nat,
    srcs: Seq<ColumnSource>,
    f: ColumnSource,
    literal: Seq<u8>,
    ids: Set<u64>,
)
    requires
        i <= rows.len(),
        select_rows(db, rows, i, srcs, Some(f), literal, None) is Ok,
        rows_match_ids(db, rows, srcs, f, literal, ids),
    ensures
        select_rows(db, rows, i, srcs, None, Seq::empty(), Some(ids)) == select_rows(
            db,
            rows,
            i,
            srcs,
            Some(f),
            literal,
            None,
        ),
    decreases i,
{
    if i > 0 {
        let j = (i - 1) as nat;
        lemma_select_rows_agree(db, rows, j, srcs, f, literal, ids);
        assert(ids.contains(rows[j as int].rowid) <==> row_shows(db, rows[j as int], srcs, f, literal));
        lemma_select_row_agrees(db, rows[j as int], srcs, f, literal, ids);
    }
}

/// Where the index agrees with its table, a filtered query answered through
/// the index gives the same rows, in the same order, as a full scan that
/// succeeds; so does the query as `run_query` answers it.
pub proof fn lemma_index_lookup_matches_scan(
    db: Seq<u8>,
    ps: u16,
    ss: Seq<SchemaModel>,
    q: QueryModel,
)
    requires
        scan_spec(db, ps, ss, q) is Ok,
        index_agrees(db, ps, ss, q),
    ensures
        index_scan_spec(db, ps, ss, q) == scan_spec(db, ps, ss, q),
        query_spec(db, ps, ss, q) == scan_spec(db, ps, ss, q),
{
    let ti = table_from(ss, q.table, 0).unwrap();
    let t = ss[ti as int];
    let names = column_names(t.sql);
    let (c, lit) = q.filter.unwrap();
    let p = position_of(names, c).unwrap();
    let xi = index_from(ss, q.table, c, 0).unwrap();
    let ix = ss[xi as int];
    let srcs = sources_of(names, q.columns, q.columns.len()).unwrap();
    let f = ColumnSource::Position(p as usize);
    let keys = index_walk(
        db,
        ps as nat,
        ix.root_page as nat,
        column_names(ix.sql).len() + 1,
        DEPTH_LIMIT as nat,
    ).unwrap();
    let rows = table_walk(db, ps as nat, t.root_page as nat, DEPTH_LIMIT as nat).unwrap();
    let ids = matching_rowids(keys, lit, keys.len()).unwrap();
    assert(filter_source(names, q.filter) == Ok::<Option<ColumnSource>, DbError>(Some(f)));
    assert(literal_of(q.filter) == lit);
    lemma_select_rows_agree(db, rows, rows.len(), srcs, f, lit, ids);
}

} // verus!
