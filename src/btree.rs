use vstd::prelude::*;
use vstd::slice::slice_subrange;

use crate::error::DbError;
use crate::header::{be16, be32, page_header_spec, read_u16_be, read_u32_be, BTreePage, PageHeader};
use crate::record::{parse_record, record_spec, values_view, ColumnValue, Value};
use crate::varint::{read_varint, varint_spec};

verus! {

/// Most levels that a traversal descends; a deeper tree is taken to be
/// malformed (its child pointers loop).
pub const DEPTH_LIMIT: usize = 20;

/// Offset of the header of page 1, after the database file header.
pub const FILE_HEADER_LEN: usize = 100;

/// Where a table row's record lies in the database.
#[derive(Debug, Clone, Copy, PartialEq, Eq, Structural)]
pub struct RecordMeta {
    pub rowid: u64,
    /// Offset of the record's first byte.
    pub offset: usize,
    /// Number of bytes of the record.
    pub length: usize,
}

/// Whether every record that `rows` locates lies inside a file of `len` bytes.
pub open spec fn rows_in_bounds(rows: Seq<RecordMeta>, len: nat) -> bool {
    forall|j: int| 0 <= j < rows.len() ==> #[trigger] rows[j].offset + rows[j].length <= len
}

/// Offset of the first byte of page `page` (pages count from 1).
pub open spec fn page_start(ps: nat, page: nat) -> nat {
    ((page - 1) * ps) as nat
}

/// Offset of the header of page `page`: after the file header on page 1.
pub open spec fn header_start(ps: nat, page: nat) -> nat {
    if page == 1 {
        FILE_HEADER_LEN as nat
    } else {
        page_start(ps, page)
    }
}

/// The header of page `page` and its length.
pub open spec fn page_header_at(db: Seq<u8>, ps: nat, page: nat) -> Result<
    (nat, PageHeader),
    DbError,
> {
    if page == 0 || header_start(ps, page) > db.len() {
        Err(DbError::Format)
    } else {
        page_header_spec(db.subrange(header_start(ps, page) as int, db.len() as int))
    }
}

/// Offset of cell `i` of page `page`, whose header is `hl` bytes long: the
/// page's start plus the `i`-th entry of the cell pointer array. `None`
/// where the entry or the cell lies past the end of `db`.
pub open spec fn cell_offset(db: Seq<u8>, ps: nat, page: nat, hl: nat, i: nat) -> Option<nat> {
    let p = header_start(ps, page) + hl + 2 * i;
    if p + 2 > db.len() {
        None
    } else {
        let c = page_start(ps, page) + be16(db, p as int);
        if c > db.len() {
            None
        } else {
            Some(c)
        }
    }
}

/// Largest payload that a cell holds on its own page; a larger one spills
/// onto overflow pages.
pub open spec fn max_local(ps: nat, index: bool) -> nat {
    if index {
        if ps >= 12 && (ps - 12) * 64 / 255 >= 23 {
            ((ps - 12) * 64 / 255 - 23) as nat
        } else {
            0
        }
    } else {
        if ps >= 35 {
            (ps - 35) as nat
        } else {
            0
        }
    }
}

/// Offset just past the last byte of page `page`.
pub open spec fn page_end(ps: nat, page: nat) -> nat {
    page_start(ps, page) + ps
}

/// The payload whose size varint starts at `p`, in a page that ends at
/// `end`: its offset and length. A payload larger than a cell holds, or one
/// that runs past the end of its page, would need overflow pages.
pub open spec fn payload_at(db: Seq<u8>, ps: nat, end: nat, p: nat, index: bool) -> Result<
    (nat, nat),
    DbError,
> {
    if p > db.len() {
        Err(DbError::Format)
    } else {
        match varint_spec(db.subrange(p as int, db.len() as int)) {
            None => Err(DbError::Format),
            Some((size, k)) => if size > max_local(ps, index) || p + k + size > end {
                Err(DbError::Unsupported)
            } else if p + k + size > db.len() {
                Err(DbError::Format)
            } else {
                Ok((p + k, size as nat))
            },
        }
    }
}

/// The row that the table leaf cell at `c`, in a page that ends at `end`,
/// holds: payload size, rowid, then the record, which must end inside the
/// page.
pub open spec fn table_leaf_cell(db: Seq<u8>, ps: nat, end: nat, c: nat) -> Result<
    RecordMeta,
    DbError,
> {
    match varint_spec(db.subrange(c as int, db.len() as int)) {
        None => Err(DbError::Format),
        Some((size, k1)) => match varint_spec(db.subrange((c + k1) as int, db.len() as int)) {
            None => Err(DbError::Format),
            Some((rowid, k2)) => if size > max_local(ps, false) || c + k1 + k2 + size > end {
                Err(DbError::Unsupported)
            } else if c + k1 + k2 + size > db.len() {
                Err(DbError::Format)
            } else {
                Ok(RecordMeta { rowid, offset: (c + k1 + k2) as usize, length: size as usize })
            },
        },
    }
}

/// The rows of the first `i` cells of table leaf page `page`.
pub open spec fn table_leaf_rows(db: Seq<u8>, ps: nat, page: nat, hl: nat, i: nat) -> Result<
    Seq<RecordMeta>,
    DbError,
>
    decreases i,
{
    if i == 0 {
        Ok(Seq::empty())
    } else {
        match table_leaf_rows(db, ps, page, hl, (i - 1) as nat) {
            Err(e) => Err(e),
            Ok(rows) => match cell_offset(db, ps, page, hl, (i - 1) as nat) {
                None => Err(DbError::Format),
                Some(c) => match table_leaf_cell(db, ps, page_end(ps, page), c) {
                    Err(e) => Err(e),
                    Ok(row) => Ok(rows.push(row)),
                },
            },
        }
    }
}

/// The rows of the table B-tree rooted at page `page`, in cell order: each
/// interior page gives the rows of its cells' left children, then those of
/// its right-most child. `fuel` bounds the depth.
pub open spec fn table_walk(db: Seq<u8>, ps: nat, page: nat, fuel: nat) -> Result<
    Seq<RecordMeta>,
    DbError,
>
    decreases fuel, 1nat, 0nat,
{
    if fuel == 0 {
        Err(DbError::Format)
    } else {
        match page_header_at(db, ps, page) {
            Err(e) => Err(e),
            Ok((hl, h)) => match h.page_type {
                BTreePage::LeafTable => table_leaf_rows(db, ps, page, hl, h.number_of_cells as nat),
                BTreePage::InteriorTable => match table_children(
                    db,
                    ps,
                    page,
                    hl,
                    h.number_of_cells as nat,
                    fuel,
                ) {
                    Err(e) => Err(e),
                    Ok(rows) => match h.right_most_pointer {
                        Some(rp) => match table_walk(db, ps, rp as nat, (fuel - 1) as nat) {
                            Err(e) => Err(e),
                            Ok(more) => Ok(rows + more),
                        },
                        None => Ok(rows),
                    },
                },
                _ => Err(DbError::Format),
            },
        }
    }
}

/// The rows under the left children of the first `i` cells of table
/// interior page `page`.
pub open spec fn table_children(
    db: Seq<u8>,
    ps: nat,
    page: nat,
    hl: nat,
    i: nat,
    fuel: nat,
) -> Result<Seq<RecordMeta>, DbError>
    decreases fuel, 0nat, i,
{
    if fuel == 0 {
        Err(DbError::Format)
    } else if i == 0 {
        Ok(Seq::empty())
    } else {
        match table_children(db, ps, page, hl, (i - 1) as nat, fuel) {
            Err(e) => Err(e),
            Ok(rows) => match cell_offset(db, ps, page, hl, (i - 1) as nat) {
                None => Err(DbError::Format),
                Some(c) => if c + 4 > db.len() {
                    Err(DbError::Format)
                } else {
                    match table_walk(db, ps, be32(db, c as int), (fuel - 1) as nat) {
                        Err(e) => Err(e),
                        Ok(more) => Ok(rows + more),
                    }
                },
            },
        }
    }
}

/// The decoded key of an index cell, in a page that ends at `end`, whose
/// payload size varint starts at `p`.
pub open spec fn index_key_at(db: Seq<u8>, ps: nat, end: nat, p: nat, ncols: nat) -> Result<
    Seq<Value>,
    DbError,
> {
    match payload_at(db, ps, end, p, true) {
        Err(e) => Err(e),
        Ok((start, size)) => match record_spec(db.subrange(start as int, (start + size) as int), ncols) {
            None => Err(DbError::Format),
            Some(key) => Ok(key),
        },
    }
}

/// The keys of the first `i` cells of index leaf page `page`.
pub open spec fn index_leaf_keys(
    db: Seq<u8>,
    ps: nat,
    page: nat,
    hl: nat,
    ncols: nat,
    i: nat,
) -> Result<Seq<Seq<Value>>, DbError>
    decreases i,
{
    if i == 0 {
        Ok(Seq::empty())
    } else {
        match index_leaf_keys(db, ps, page, hl, ncols, (i - 1) as nat) {
            Err(e) => Err(e),
            Ok(keys) => match cell_offset(db, ps, page, hl, (i - 1) as nat) {
                None => Err(DbError::Format),
                Some(c) => match index_key_at(db, ps, page_end(ps, page), c, ncols) {
                    Err(e) => Err(e),
                    Ok(key) => Ok(keys.push(key)),
                },
            },
        }
    }
}

/// The keys of the index B-tree rooted at page `page`, each decoded as
/// `ncols` columns, in order: an interior page gives, for each cell, the
/// keys under its left child and then its own key, and last the keys under
/// its right-most child. `fuel` bounds the depth.
pub open spec fn index_walk(db: Seq<u8>, ps: nat, page: nat, ncols: nat, fuel: nat) -> Result<
    Seq<Seq<Value>>,
    DbError,
>
    decreases fuel, 1nat, 0nat,
{
    if fuel == 0 {
        Err(DbError::Format)
    } else {
        match page_header_at(db, ps, page) {
            Err(e) => Err(e),
            Ok((hl, h)) => match h.page_type {
                BTreePage::LeafIndex => index_leaf_keys(
                    db,
                    ps,
                    page,
                    hl,
                    ncols,
                    h.number_of_cells as nat,
                ),
                BTreePage::InteriorIndex => match index_children(
                    db,
                    ps,
                    page,
                    hl,
                    ncols,
                    h.number_of_cells as nat,
                    fuel,
                ) {
                    Err(e) => Err(e),
                    Ok(keys) => match h.right_most_pointer {
                        Some(rp) => match index_walk(db, ps, rp as nat, ncols, (fuel - 1) as nat) {
                            Err(e) => Err(e),
                            Ok(more) => Ok(keys + more),
                        },
                        None => Ok(keys),
                    },
                },
                _ => Err(DbError::Format),
            },
        }
    }
}

/// The keys under and of the first `i` cells of index interior page `page`.
pub open spec fn index_children(
    db: Seq<u8>,
    ps: nat,
    page: nat,
    hl: nat,
    ncols: nat,
    i: nat,
    fuel: nat,
) -> Result<Seq<Seq<Value>>, DbError>
    decreases fuel, 0nat, i,
{
    if fuel == 0 {
        Err(DbError::Format)
    } else if i == 0 {
        Ok(Seq::empty())
    } else {
        match index_children(db, ps, page, hl, ncols, (i - 1) as nat, fuel) {
            Err(e) => Err(e),
            Ok(keys) => match cell_offset(db, ps, page, hl, (i - 1) as nat) {
                None => Err(DbError::Format),
                Some(c) => if c + 4 > db.len() {
                    Err(DbError::Format)
                } else {
                    match index_walk(db, ps, be32(db, c as int), ncols, (fuel - 1) as nat) {
                        Err(e) => Err(e),
                        Ok(more) => match index_key_at(db, ps, page_end(ps, page), c + 4, ncols) {
                            Err(e) => Err(e),
                            Ok(key) => Ok(keys + more.push(key)),
                        },
                    }
                },
            },
        }
    }
}

/// The views of a sequence of decoded keys.
pub open spec fn keys_view(keys: Seq<Vec<ColumnValue>>) -> Seq<Seq<Value>> {
    keys.map_values(|k: Vec<ColumnValue>| values_view(k@))
}

proof fn lemma_page_start_bound(ps: u16, page: u32)
    requires
        page >= 1,
    ensures
        page_start(ps as nat, page as nat) <= 0xffff_ffff_ffff,
{
    let a = (page - 1) as int;
    let b = ps as int;
    assert(a * b <= 0xffff_ffff_ffff) by (nonlinear_arith)
        requires
            0 <= a <= 0xffff_ffff,
            0 <= b <= 0xffff,
    ;
}

/// End of page `page`, which starts at `start`.
fn page_end_exec(ps: u16, page: u32, start: usize) -> (r: u64)
    requires
        page >= 1,
        start == page_start(ps as nat, page as nat),
    ensures
        r == page_end(ps as nat, page as nat),
{
    proof {
        lemma_page_start_bound(ps, page);
    }
    start as u64 + ps as u64
}

/// Reads the header of page `page`; returns its length, the header, and the
/// offsets of the page and of its header.
fn read_page_header(db: &[u8], ps: u16, page: u32) -> (r: Result<
    (usize, PageHeader, usize, usize),
    DbError,
>)
    ensures
        match page_header_at(db@, ps as nat, page as nat) {
            Ok((hl, h)) => r is Ok && r.unwrap().0 == hl && r.unwrap().1 == h && r.unwrap().2
                == page_start(ps as nat, page as nat) && r.unwrap().3 == header_start(
                ps as nat,
                page as nat,
            ) && hl <= 12 && header_start(ps as nat, page as nat) <= db@.len(),
            Err(e) => r == Err::<(usize, PageHeader, usize, usize), DbError>(e),
        },
{
    if page == 0 {
        return Err(DbError::Format);
    }
    let before: u64 = (page - 1) as u64;
    let size: u64 = ps as u64;
    assert(before * size <= 0xffff_ffff_ffff) by (nonlinear_arith)
        requires
            before <= 0xffff_ffff,
            size <= 0xffff,
    ;
    let start64: u64 = before * size;
    let hs64: u64 = if page == 1 {
        FILE_HEADER_LEN as u64
    } else {
        start64
    };
    if hs64 > db.len() as u64 {
        return Err(DbError::Format);
    }
    let hs = hs64 as usize;
    let start: usize = if page == 1 {
        0
    } else {
        hs
    };
    assert(start == page_start(ps as nat, page as nat)) by {
        if page == 1 {
            assert(0 * (ps as int) == 0);
        }
    }
    match PageHeader::parse(slice_subrange(db, hs, db.len())) {
        Ok((hl, h)) => Ok((hl, h, start, hs)),
        Err(e) => Err(e),
    }
}

/// Offset of cell `i` of a page that starts at `start` and whose header,
/// `hl` bytes long, starts at `hs`.
fn read_cell_offset(db: &[u8], ps: u16, page: u32, start: usize, hs: usize, hl: usize, i: u16) -> (r:
    Result<usize, DbError>)
    requires
        page >= 1,
        start == page_start(ps as nat, page as nat),
        hs == header_start(ps as nat, page as nat),
        hs <= db@.len(),
        hl <= 12,
    ensures
        match cell_offset(db@, ps as nat, page as nat, hl as nat, i as nat) {
            Some(c) => r is Ok && r.unwrap() == c && c <= db@.len(),
            None => r == Err::<usize, DbError>(DbError::Format),
        },
{
    let room = db.len() - hs;
    if hl + 2 * (i as usize) + 2 > room {
        return Err(DbError::Format);
    }
    let cp = read_u16_be(db, hs + hl + 2 * (i as usize));
    if cp as usize > db.len() || start > db.len() - cp as usize {
        return Err(DbError::Format);
    }
    Ok(start + cp as usize)
}

/// The payload whose size varint starts at `p`: its offset and length.
fn read_payload(db: &[u8], ps: u16, end: u64, p: usize, index: bool) -> (r: Result<
    (usize, usize),
    DbError,
>)
    ensures
        match payload_at(db@, ps as nat, end as nat, p as nat, index) {
            Ok((start, size)) => r is Ok && r.unwrap().0 == start && r.unwrap().1 == size && start
                + size <= db@.len(),
            Err(e) => r == Err::<(usize, usize), DbError>(e),
        },
{
    if p > db.len() {
        return Err(DbError::Format);
    }
    let (size, k) = match read_varint(db, p) {
        Ok(x) => x,
        Err(e) => {
            return Err(e);
        },
    };
    if size > max_local_exec(ps, index) || (p + k) as u64 > end || size > end - (p + k) as u64 {
        return Err(DbError::Unsupported);
    }
    if size > (db.len() - p - k) as u64 {
        return Err(DbError::Format);
    }
    Ok((p + k, size as usize))
}

/// Largest payload that a cell holds on its own page.
fn max_local_exec(ps: u16, index: bool) -> (r: u64)
    ensures
        r == max_local(ps as nat, index),
{
    let u = ps as u64;
    if index {
        if u >= 12 && (u - 12) * 64 / 255 >= 23 {
            (u - 12) * 64 / 255 - 23
        } else {
            0
        }
    } else {
        if u >= 35 {
            u - 35
        } else {
            0
        }
    }
}

/// Appends the rows of the table B-tree rooted at `page` to `out`.
fn walk_table(db: &[u8], ps: u16, page: u32, fuel: usize, out: &mut Vec<RecordMeta>) -> (r: Result<
    (),
    DbError,
>)
    requires
        rows_in_bounds(old(out)@, db@.len()),
    ensures
        match table_walk(db@, ps as nat, page as nat, fuel as nat) {
            Ok(rows) => r is Ok && final(out)@ == old(out)@ + rows,
            Err(e) => r == Err::<(), DbError>(e),
        },
        r is Ok ==> rows_in_bounds(final(out)@, db@.len()),
    decreases fuel, 1nat,
{
    if fuel == 0 {
        return Err(DbError::Format);
    }
    let (hl, h, start, hs) = match read_page_header(db, ps, page) {
        Ok(x) => x,
        Err(e) => {
            return Err(e);
        },
    };
    match h.page_type {
        BTreePage::LeafTable => walk_table_leaf(db, ps, page, start, hs, hl, h.number_of_cells, out),
        BTreePage::InteriorTable => {
            let ghost out0 = out@;
            match walk_table_interior(db, ps, page, start, hs, hl, h.number_of_cells, fuel, out) {
                Ok(()) => {},
                Err(e) => {
                    return Err(e);
                },
            }
            match h.right_most_pointer {
                Some(rp) => match walk_table(db, ps, rp, fuel - 1, out) {
                    Ok(()) => {
                        assert(out@ =~= out0 + table_walk(
                            db@,
                            ps as nat,
                            page as nat,
                            fuel as nat,
                        ).unwrap());
                        Ok(())
                    },
                    Err(e) => Err(e),
                },
                None => Ok(()),
            }
        },
        _ => Err(DbError::Format),
    }
}

/// Appends the rows of the `n` cells of a table leaf page to `out`.
fn walk_table_leaf(
    db: &[u8],
    ps: u16,
    page: u32,
    start: usize,
    hs: usize,
    hl: usize,
    n: u16,
    out: &mut Vec<RecordMeta>,
) -> (r: Result<(), DbError>)
    requires
        page >= 1,
        start == page_start(ps as nat, page as nat),
        hs == header_start(ps as nat, page as nat),
        hs <= db@.len(),
        hl <= 12,
        rows_in_bounds(old(out)@, db@.len()),
    ensures
        match table_leaf_rows(db@, ps as nat, page as nat, hl as nat, n as nat) {
            Ok(rows) => r is Ok && final(out)@ == old(out)@ + rows,
            Err(e) => r == Err::<(), DbError>(e),
        },
        r is Ok ==> rows_in_bounds(final(out)@, db@.len()),
{
    let ghost out0 = out@;
    let ghost s = db@;
    let ghost (p, g, h) = (ps as nat, page as nat, hl as nat);
    let end = page_end_exec(ps, page, start);
    let mut i: u16 = 0;
    while i < n
        invariant
            s == db@,
            p == ps as nat && g == page as nat && h == hl as nat,
            page >= 1,
            start == page_start(p, g),
            hs == header_start(p, g),
            end == page_end(p, g),
            hs <= s.len(),
            hl <= 12,
            i <= n,
            table_leaf_rows(s, p, g, h, i as nat) is Ok,
            rows_in_bounds(out@, s.len()),
            out@ == out0 + table_leaf_rows(s, p, g, h, i as nat).unwrap(),
        decreases n - i,
    {
        let c = match read_cell_offset(db, ps, page, start, hs, hl, i) {
            Ok(c) => c,
            Err(e) => {
                proof {
                    lemma_table_leaf_rows_stay_failed(s, p, g, h, (i + 1) as nat, n as nat);
                }
                return Err(e);
            },
        };
        match read_table_leaf_cell(db, ps, end, c) {
            Ok(row) => {
                let ghost prev = table_leaf_rows(s, p, g, h, i as nat).unwrap();
                out.push(row);
                proof {
                    assert(table_leaf_rows(s, p, g, h, (i + 1) as nat) == Ok::<
                        Seq<RecordMeta>,
                        DbError,
                    >(prev.push(row)));
                    assert(out@ =~= out0 + prev.push(row));
                }
            },
            Err(e) => {
                proof {
                    lemma_table_leaf_rows_stay_failed(s, p, g, h, (i + 1) as nat, n as nat);
                }
                return Err(e);
            },
        }
        i = i + 1;
    }
    Ok(())
}

/// Appends the rows under the left children of the `n` cells of a table
/// interior page to `out`.
fn walk_table_interior(
    db: &[u8],
    ps: u16,
    page: u32,
    start: usize,
    hs: usize,
    hl: usize,
    n: u16,
    fuel: usize,
    out: &mut Vec<RecordMeta>,
) -> (r: Result<(), DbError>)
    requires
        fuel >= 1,
        page >= 1,
        start == page_start(ps as nat, page as nat),
        hs == header_start(ps as nat, page as nat),
        hs <= db@.len(),
        hl <= 12,
        rows_in_bounds(old(out)@, db@.len()),
    ensures
        match table_children(db@, ps as nat, page as nat, hl as nat, n as nat, fuel as nat) {
            Ok(rows) => r is Ok && final(out)@ == old(out)@ + rows,
            Err(e) => r == Err::<(), DbError>(e),
        },
        r is Ok ==> rows_in_bounds(final(out)@, db@.len()),
    decreases fuel, 0nat,
{
    let ghost out0 = out@;
    let ghost s = db@;
    let ghost (p, g, h, f) = (ps as nat, page as nat, hl as nat, fuel as nat);
    let mut i: u16 = 0;
    while i < n
        invariant
            s == db@,
            p == ps as nat && g == page as nat && h == hl as nat && f == fuel as nat,
            fuel >= 1,
            page >= 1,
            start == page_start(p, g),
            hs == header_start(p, g),
            hs <= s.len(),
            hl <= 12,
            i <= n,
            table_children(s, p, g, h, i as nat, f) is Ok,
            rows_in_bounds(out@, s.len()),
            out@ == out0 + table_children(s, p, g, h, i as nat, f).unwrap(),
        decreases n - i,
    {
        let c = match read_cell_offset(db, ps, page, start, hs, hl, i) {
            Ok(c) => c,
            Err(e) => {
                proof {
                    lemma_table_children_stay_failed(s, p, g, h, (i + 1) as nat, n as nat, f);
                }
                return Err(e);
            },
        };
        if db.len() < 4 || c > db.len() - 4 {
            proof {
                lemma_table_children_stay_failed(s, p, g, h, (i + 1) as nat, n as nat, f);
            }
            return Err(DbError::Format);
        }
        let child = read_u32_be(db, c);
        let ghost prev = table_children(s, p, g, h, i as nat, f).unwrap();
        match walk_table(db, ps, child, fuel - 1, out) {
            Ok(()) => {
                proof {
                    let more = table_walk(s, p, child as nat, (f - 1) as nat).unwrap();
                    assert(table_children(s, p, g, h, (i + 1) as nat, f) == Ok::<
                        Seq<RecordMeta>,
                        DbError,
                    >(prev + more));
                    assert(out@ =~= out0 + (prev + more));
                }
            },
            Err(e) => {
                proof {
                    lemma_table_children_stay_failed(s, p, g, h, (i + 1) as nat, n as nat, f);
                }
                return Err(e);
            },
        }
        i = i + 1;
    }
    Ok(())
}

proof fn lemma_table_leaf_rows_stay_failed(db: Seq<u8>, ps: nat, page: nat, hl: nat, i: nat, n: nat)
    requires
        i <= n,
        table_leaf_rows(db, ps, page, hl, i) is Err,
    ensures
        table_leaf_rows(db, ps, page, hl, n) == table_leaf_rows(db, ps, page, hl, i),
    decreases n - i,
{
    if i < n {
        lemma_table_leaf_rows_stay_failed(db, ps, page, hl, i + 1, n);
    }
}

proof fn lemma_table_children_stay_failed(
    db: Seq<u8>,
    ps: nat,
    page: nat,
    hl: nat,
    i: nat,
    n: nat,
    fuel: nat,
)
    requires
        i <= n,
        table_children(db, ps, page, hl, i, fuel) is Err,
    ensures
        table_children(db, ps, page, hl, n, fuel) == table_children(db, ps, page, hl, i, fuel),
    decreases n - i,
{
    if i < n {
        lemma_table_children_stay_failed(db, ps, page, hl, i + 1, n, fuel);
    }
}

/// The row that the table leaf cell at `c` holds.
fn read_table_leaf_cell(db: &[u8], ps: u16, end: u64, c: usize) -> (r: Result<RecordMeta, DbError>)
    requires
        c <= db@.len(),
    ensures
        match table_leaf_cell(db@, ps as nat, end as nat, c as nat) {
            Ok(row) => r == Ok::<RecordMeta, DbError>(row) && row.offset + row.length <= db@.len(),
            Err(e) => r == Err::<RecordMeta, DbError>(e),
        },
{
    let len = db.len();
    let (size, k1) = match read_varint(db, c) {
        Ok((size, k1)) => (size, k1),
        Err(e) => {
            return Err(e);
        },
    };
    let (rowid, k2) = match read_varint(db, c + k1) {
        Ok((rowid, k2)) => (rowid, k2),
        Err(e) => {
            return Err(e);
        },
    };
    let head = c + k1 + k2;
    if size > max_local_exec(ps, false) || head as u64 > end || size > end - head as u64 {
        return Err(DbError::Unsupported);
    }
    if size > (len - head) as u64 {
        return Err(DbError::Format);
    }
    Ok(RecordMeta { rowid, offset: head, length: size as usize })
}

/// Where the rows of the table B-tree rooted at page `root_page` lie, in
/// rowid order for a well-formed tree.
pub fn table_rows(db: &[u8], page_size: u16, root_page: u32) -> (r: Result<
    Vec<RecordMeta>,
    DbError,
>)
    ensures
        match table_walk(db@, page_size as nat, root_page as nat, DEPTH_LIMIT as nat) {
            Ok(rows) => r is Ok && r.unwrap()@ == rows,
            Err(e) => r == Err::<Vec<RecordMeta>, DbError>(e),
        },
        r is Ok ==> rows_in_bounds(r.unwrap()@, db@.len()),
{
    let mut out: Vec<RecordMeta> = Vec::new();
    match walk_table(db, page_size, root_page, DEPTH_LIMIT, &mut out) {
        Ok(()) => {
            assert(out@ =~= Seq::<RecordMeta>::empty() + out@);
            Ok(out)
        },
        Err(e) => Err(e),
    }
}

/// The key of the index cell whose payload size varint starts at `p`,
/// decoded as `ncols` columns.
fn read_index_key(db: &[u8], ps: u16, end: u64, p: usize, ncols: usize) -> (r: Result<
    Vec<ColumnValue>,
    DbError,
>)
    ensures
        match index_key_at(db@, ps as nat, end as nat, p as nat, ncols as nat) {
            Ok(key) => r is Ok && values_view(r.unwrap()@) == key,
            Err(e) => r == Err::<Vec<ColumnValue>, DbError>(e),
        },
{
    let len = db.len();
    let (start, size) = match read_payload(db, ps, end, p, true) {
        Ok((start, size)) => (start, size),
        Err(e) => {
            return Err(e);
        },
    };
    assert(start + size <= len);
    parse_record(slice_subrange(db, start, start + size), ncols)
}

/// Appends the keys of the index B-tree rooted at `page` to `out`.
fn walk_index(
    db: &[u8],
    ps: u16,
    page: u32,
    ncols: usize,
    fuel: usize,
    out: &mut Vec<Vec<ColumnValue>>,
) -> (r: Result<(), DbError>)
    ensures
        match index_walk(db@, ps as nat, page as nat, ncols as nat, fuel as nat) {
            Ok(keys) => r is Ok && keys_view(final(out)@) == keys_view(old(out)@) + keys,
            Err(e) => r == Err::<(), DbError>(e),
        },
    decreases fuel, 1nat,
{
    if fuel == 0 {
        return Err(DbError::Format);
    }
    let (hl, h, start, hs) = match read_page_header(db, ps, page) {
        Ok(x) => x,
        Err(e) => {
            return Err(e);
        },
    };
    match h.page_type {
        BTreePage::LeafIndex => walk_index_leaf(
            db,
            ps,
            page,
            start,
            hs,
            hl,
            h.number_of_cells,
            ncols,
            out,
        ),
        BTreePage::InteriorIndex => {
            let ghost out0 = keys_view(out@);
            match walk_index_interior(
                db,
                ps,
                page,
                start,
                hs,
                hl,
                h.number_of_cells,
                ncols,
                fuel,
                out,
            ) {
                Ok(()) => {},
                Err(e) => {
                    return Err(e);
                },
            }
            match h.right_most_pointer {
                Some(rp) => match walk_index(db, ps, rp, ncols, fuel - 1, out) {
                    Ok(()) => {
                        assert(keys_view(out@) =~= out0 + index_walk(
                            db@,
                            ps as nat,
                            page as nat,
                            ncols as nat,
                            fuel as nat,
                        ).unwrap());
                        Ok(())
                    },
                    Err(e) => Err(e),
                },
                None => Ok(()),
            }
        },
        _ => Err(DbError::Format),
    }
}

proof fn lemma_keys_view_push(keys: Seq<Vec<ColumnValue>>, k: Vec<ColumnValue>)
    ensures
        keys_view(keys.push(k)) == keys_view(keys).push(values_view(k@)),
{
    assert(keys_view(keys.push(k)) =~= keys_view(keys).push(values_view(k@)));
}

proof fn lemma_index_leaf_keys_stay_failed(
    db: Seq<u8>,
    ps: nat,
    page: nat,
    hl: nat,
    ncols: nat,
    i: nat,
    n: nat,
)
    requires
        i <= n,
        index_leaf_keys(db, ps, page, hl, ncols, i) is Err,
    ensures
        index_leaf_keys(db, ps, page, hl, ncols, n) == index_leaf_keys(db, ps, page, hl, ncols, i),
    decreases n - i,
{
    if i < n {
        lemma_index_leaf_keys_stay_failed(db, ps, page, hl, ncols, i + 1, n);
    }
}

proof fn lemma_index_children_stay_failed(
    db: Seq<u8>,
    ps: nat,
    page: nat,
    hl: nat,
    ncols: nat,
    i: nat,
    n: nat,
    fuel: nat,
)
    requires
        i <= n,
        index_children(db, ps, page, hl, ncols, i, fuel) is Err,
    ensures
        index_children(db, ps, page, hl, ncols, n, fuel) == index_children(
            db,
            ps,
            page,
            hl,
            ncols,
            i,
            fuel,
        ),
    decreases n - i,
{
    if i < n {
        lemma_index_children_stay_failed(db, ps, page, hl, ncols, i + 1, n, fuel);
    }
}

/// Appends the keys of the `n` cells of an index leaf page to `out`.
fn walk_index_leaf(
    db: &[u8],
    ps: u16,
    page: u32,
    start: usize,
    hs: usize,
    hl: usize,
    n: u16,
    ncols: usize,
    out: &mut Vec<Vec<ColumnValue>>,
) -> (r: Result<(), DbError>)
    requires
        page >= 1,
        start == page_start(ps as nat, page as nat),
        hs == header_start(ps as nat, page as nat),
        hs <= db@.len(),
        hl <= 12,
    ensures
        match index_leaf_keys(db@, ps as nat, page as nat, hl as nat, ncols as nat, n as nat) {
            Ok(keys) => r is Ok && keys_view(final(out)@) == keys_view(old(out)@) + keys,
            Err(e) => r == Err::<(), DbError>(e),
        },
{
    let ghost out0 = keys_view(out@);
    let ghost s = db@;
    let ghost (p, g, h, m) = (ps as nat, page as nat, hl as nat, ncols as nat);
    let end = page_end_exec(ps, page, start);
    let mut i: u16 = 0;
    while i < n
        invariant
            s == db@,
            p == ps as nat && g == page as nat && h == hl as nat && m == ncols as nat,
            page >= 1,
            start == page_start(p, g),
            hs == header_start(p, g),
            end == page_end(p, g),
            hs <= s.len(),
            hl <= 12,
            i <= n,
            index_leaf_keys(s, p, g, h, m, i as nat) is Ok,
            keys_view(out@) == out0 + index_leaf_keys(s, p, g, h, m, i as nat).unwrap(),
        decreases n - i,
    {
        let c = match read_cell_offset(db, ps, page, start, hs, hl, i) {
            Ok(c) => c,
            Err(e) => {
                proof {
                    lemma_index_leaf_keys_stay_failed(s, p, g, h, m, (i + 1) as nat, n as nat);
                }
                return Err(e);
            },
        };
        match read_index_key(db, ps, end, c, ncols) {
            Ok(key) => {
                let ghost prev = index_leaf_keys(s, p, g, h, m, i as nat).unwrap();
                proof {
                    lemma_keys_view_push(out@, key);
                    assert(index_leaf_keys(s, p, g, h, m, (i + 1) as nat) == Ok::<
                        Seq<Seq<Value>>,
                        DbError,
                    >(prev.push(values_view(key@))));
                }
                out.push(key);
                assert(keys_view(out@) =~= out0 + prev.push(index_key_at(s, p, page_end(p, g), c as nat, m).unwrap()));
            },
            Err(e) => {
                proof {
                    lemma_index_leaf_keys_stay_failed(s, p, g, h, m, (i + 1) as nat, n as nat);
                }
                return Err(e);
            },
        }
        i = i + 1;
    }
    Ok(())
}

/// Appends the keys under and of the `n` cells of an index interior page to
/// `out`.
fn walk_index_interior(
    db: &[u8],
    ps: u16,
    page: u32,
    start: usize,
    hs: usize,
    hl: usize,
    n: u16,
    ncols: usize,
    fuel: usize,
    out: &mut Vec<Vec<ColumnValue>>,
) -> (r: Result<(), DbError>)
    requires
        fuel >= 1,
        page >= 1,
        start == page_start(ps as nat, page as nat),
        hs == header_start(ps as nat, page as nat),
        hs <= db@.len(),
        hl <= 12,
    ensures
        match index_children(
            db@,
            ps as nat,
            page as nat,
            hl as nat,
            ncols as nat,
            n as nat,
            fuel as nat,
        ) {
            Ok(keys) => r is Ok && keys_view(final(out)@) == keys_view(old(out)@) + keys,
            Err(e) => r == Err::<(), DbError>(e),
        },
    decreases fuel, 0nat,
{
    let ghost out0 = keys_view(out@);
    let ghost s = db@;
    let ghost (p, g, h, m, f) = (ps as nat, page as nat, hl as nat, ncols as nat, fuel as nat);
    let end = page_end_exec(ps, page, start);
    let mut i: u16 = 0;
    while i < n
        invariant
            s == db@,
            p == ps as nat && g == page as nat && h == hl as nat && m == ncols as nat && f
                == fuel as nat,
            fuel >= 1,
            page >= 1,
            start == page_start(p, g),
            hs == header_start(p, g),
            end == page_end(p, g),
            hs <= s.len(),
            hl <= 12,
            i <= n,
            index_children(s, p, g, h, m, i as nat, f) is Ok,
            keys_view(out@) == out0 + index_children(s, p, g, h, m, i as nat, f).unwrap(),
        decreases n - i,
    {
        let c = match read_cell_offset(db, ps, page, start, hs, hl, i) {
            Ok(c) => c,
            Err(e) => {
                proof {
                    lemma_index_children_stay_failed(s, p, g, h, m, (i + 1) as nat, n as nat, f);
                }
                return Err(e);
            },
        };
        if db.len() < 4 || c > db.len() - 4 {
            proof {
                lemma_index_children_stay_failed(s, p, g, h, m, (i + 1) as nat, n as nat, f);
            }
            return Err(DbError::Format);
        }
        let child = read_u32_be(db, c);
        let ghost prev = index_children(s, p, g, h, m, i as nat, f).unwrap();
        match walk_index(db, ps, child, ncols, fuel - 1, out) {
            Ok(()) => {},
            Err(e) => {
                proof {
                    lemma_index_children_stay_failed(s, p, g, h, m, (i + 1) as nat, n as nat, f);
                }
                return Err(e);
            },
        }
        let ghost more = index_walk(s, p, child as nat, m, (f - 1) as nat).unwrap();
        match read_index_key(db, ps, end, c + 4, ncols) {
            Ok(key) => {
                proof {
                    lemma_keys_view_push(out@, key);
                    assert(index_children(s, p, g, h, m, (i + 1) as nat, f) == Ok::<
                        Seq<Seq<Value>>,
                        DbError,
                    >(prev + more.push(values_view(key@))));
                }
                out.push(key);
                assert(keys_view(out@) =~= out0 + (prev + more.push(
                    index_key_at(s, p, page_end(p, g), (c + 4) as nat, m).unwrap(),
                )));
            },
            Err(e) => {
                proof {
                    lemma_index_children_stay_failed(s, p, g, h, m, (i + 1) as nat, n as nat, f);
                }
                return Err(e);
            },
        }
        i = i + 1;
    }
    Ok(())
}

/// The keys of the index B-tree rooted at page `root_page`, each decoded
/// as `column_count` columns (the indexed columns, then the rowid), in key
/// order for a well-formed tree.
pub fn index_entries(db: &[u8], page_size: u16, root_page: u32, column_count: usize) -> (r:
    Result<Vec<Vec<ColumnValue>>, DbError>)
    ensures
        match index_walk(
            db@,
            page_size as nat,
            root_page as nat,
            column_count as nat,
            DEPTH_LIMIT as nat,
        ) {
            Ok(keys) => r is Ok && keys_view(r.unwrap()@) == keys,
            Err(e) => r == Err::<Vec<Vec<ColumnValue>>, DbError>(e),
        },
{
    let mut out: Vec<Vec<ColumnValue>> = Vec::new();
    match walk_index(db, page_size, root_page, column_count, DEPTH_LIMIT, &mut out) {
        Ok(()) => {
            assert(keys_view(Seq::<Vec<ColumnValue>>::empty()) =~= Seq::<Seq<Value>>::empty());
            assert(keys_view(out@) =~= Seq::<Seq<Value>>::empty() + keys_view(out@));
            Ok(out)
        },
        Err(e) => Err(e),
    }
}

proof fn lemma_table_leaf_rows_len(db: Seq<u8>, ps: nat, page: nat, hl: nat, i: nat)
    requires
        table_leaf_rows(db, ps, page, hl, i) is Ok,
    ensures
        table_leaf_rows(db, ps, page, hl, i).unwrap().len() == i,
    decreases i,
{
    if i > 0 {
        lemma_table_leaf_rows_len(db, ps, page, hl, (i - 1) as nat);
    }
}

/// A table whose root page is a leaf has as many rows as that page's
/// header counts cells.
pub proof fn lemma_leaf_table_count(db: Seq<u8>, ps: nat, page: nat, fuel: nat)
    requires
        table_walk(db, ps, page, fuel) is Ok,
        page_header_at(db, ps, page) is Ok,
        page_header_at(db, ps, page).unwrap().1.page_type == BTreePage::LeafTable,
    ensures
        table_walk(db, ps, page, fuel).unwrap().len() == page_header_at(
            db,
            ps,
            page,
        ).unwrap().1.number_of_cells,
{
    let (hl, h) = page_header_at(db, ps, page).unwrap();
    lemma_table_leaf_rows_len(db, ps, page, hl, h.number_of_cells as nat);
}

} // verus!
