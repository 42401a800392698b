use vstd::prelude::*;
use vstd::slice::slice_subrange;

use crate::error::DbError;
use crate::text::{decimal, push_all, push_decimal, push_signed_decimal, signed_decimal};
use crate::varint::{read_varint, varint_spec};

verus! {

/// `256` raised to the power `k`.
pub open spec fn pow256(k: nat) -> nat
    decreases k,
{
    if k == 0 {
        1
    } else {
        256 * pow256((k - 1) as nat)
    }
}

/// The unsigned big-endian number in the `n` bytes of `s` at `i`.
pub open spec fn be_uint(s: Seq<u8>, i: int, n: nat) -> nat
    decreases n,
{
    if n == 0 {
        0
    } else {
        be_uint(s, i, (n - 1) as nat) * 256 + s[i + n - 1] as nat
    }
}

/// The two's-complement big-endian number in the `n` bytes of `s` at `i`.
pub open spec fn be_int(s: Seq<u8>, i: int, n: nat) -> int {
    let u = be_uint(s, i, n);
    if n > 0 && u >= pow256(n) / 2 {
        u - pow256(n)
    } else {
        u as int
    }
}

/// A column value, as the contracts speak of it.
pub enum Value {
    Null,
    I8(i8),
    I16(i16),
    I24(i32),
    I32(i32),
    I48(i64),
    I64(i64),
    /// The bits of an IEEE-754 double.
    Float64(u64),
    False,
    True,
    Blob(Seq<u8>),
    Text(Seq<u8>),
}

/// One decoded column of a record.
#[derive(Debug, Clone, PartialEq, Eq)]
pub enum ColumnValue {
    Null,
    I8(i8),
    I16(i16),
    I24(i32),
    I32(i32),
    I48(i64),
    I64(i64),
    /// The bits of an IEEE-754 double, as stored.
    Float64(u64),
    False,
    True,
    Blob(Vec<u8>),
    /// Text as stored: the bytes are kept as they are, and turning them into
    /// characters is left to whoever shows them.
    Text(Vec<u8>),
}

impl View for ColumnValue {
    type V = Value;

    open spec fn view(&self) -> Value {
        match self {
            ColumnValue::Null => Value::Null,
            ColumnValue::I8(v) => Value::I8(*v),
            ColumnValue::I16(v) => Value::I16(*v),
            ColumnValue::I24(v) => Value::I24(*v),
            ColumnValue::I32(v) => Value::I32(*v),
            ColumnValue::I48(v) => Value::I48(*v),
            ColumnValue::I64(v) => Value::I64(*v),
            ColumnValue::Float64(v) => Value::Float64(*v),
            ColumnValue::False => Value::False,
            ColumnValue::True => Value::True,
            ColumnValue::Blob(v) => Value::Blob(v@),
            ColumnValue::Text(v) => Value::Text(v@),
        }
    }
}

/// The views of a sequence of column values.
pub open spec fn values_view(v: Seq<ColumnValue>) -> Seq<Value> {
    v.map_values(|c: ColumnValue| c@)
}

/// The integer that `v` holds, if it is one of the integer kinds; the
/// false and true literals stand for 0 and 1.
pub open spec fn int_of(v: Value) -> Option<int> {
    match v {
        Value::False => Some(0),
        Value::True => Some(1),
        Value::I8(i) => Some(i as int),
        Value::I16(i) => Some(i as int),
        Value::I24(i) => Some(i as int),
        Value::I32(i) => Some(i as int),
        Value::I48(i) => Some(i as int),
        Value::I64(i) => Some(i as int),
        _ => None,
    }
}

/// The decimal numbers of `b`, separated by a comma and a space.
pub open spec fn byte_list(b: Seq<u8>) -> Seq<u8>
    decreases b.len(),
{
    if b.len() == 0 {
        Seq::empty()
    } else if b.len() == 1 {
        decimal(b[0] as nat)
    } else {
        byte_list(b.drop_last()) + seq![44u8, 32u8] + decimal(b.last() as nat)
    }
}

/// The text by which a value is shown and compared with query literals:
/// integers in decimal, `false` and `true`, nothing for null, text as
/// stored, a blob as its bytes in decimal between brackets. A float has no
/// text here: `None`.
pub open spec fn display_spec(v: Value) -> Option<Seq<u8>> {
    match v {
        Value::Null => Some(Seq::empty()),
        Value::Float64(_) => None,
        Value::False => Some(seq![102u8, 97u8, 108u8, 115u8, 101u8]),
        Value::True => Some(seq![116u8, 114u8, 117u8, 101u8]),
        Value::Blob(b) => Some(seq![91u8] + byte_list(b) + seq![93u8]),
        Value::Text(t) => Some(t),
        _ => Some(signed_decimal(int_of(v).unwrap())),
    }
}

/// Number of value bytes that serial type `t` takes, or `None` for the
/// reserved codes 10 and 11.
pub open spec fn serial_len(t: u64) -> Option<nat> {
    if t == 0 || t == 8 || t == 9 {
        Some(0)
    } else if 1 <= t <= 4 {
        Some(t as nat)
    } else if t == 5 {
        Some(6)
    } else if t == 6 || t == 7 {
        Some(8)
    } else if t >= 12 && t % 2 == 0 {
        Some(((t - 12) / 2) as nat)
    } else if t >= 13 {
        Some(((t - 13) / 2) as nat)
    } else {
        None
    }
}

/// The value of serial type `t` whose bytes start at `i` in `s`, or `None`
/// where the code is reserved or the bytes run past the end of `s`.
pub open spec fn column_spec(s: Seq<u8>, i: int, t: u64) -> Option<Value> {
    match serial_len(t) {
        None => None,
        Some(n) => if i < 0 || i + n > s.len() {
            None
        } else if t == 0 {
            Some(Value::Null)
        } else if t == 1 {
            Some(Value::I8(be_int(s, i, 1) as i8))
        } else if t == 2 {
            Some(Value::I16(be_int(s, i, 2) as i16))
        } else if t == 3 {
            Some(Value::I24(be_int(s, i, 3) as i32))
        } else if t == 4 {
            Some(Value::I32(be_int(s, i, 4) as i32))
        } else if t == 5 {
            Some(Value::I48(be_int(s, i, 6) as i64))
        } else if t == 6 {
            Some(Value::I64(be_int(s, i, 8) as i64))
        } else if t == 7 {
            Some(Value::Float64(be_uint(s, i, 8) as u64))
        } else if t == 8 {
            Some(Value::False)
        } else if t == 9 {
            Some(Value::True)
        } else if t % 2 == 0 {
            Some(Value::Blob(s.subrange(i, i + n)))
        } else {
            Some(Value::Text(s.subrange(i, i + n)))
        },
    }
}

/// Number of bytes that a value takes in a record.
pub open spec fn value_len(v: Value) -> nat {
    match v {
        Value::Null | Value::False | Value::True => 0,
        Value::I8(_) => 1,
        Value::I16(_) => 2,
        Value::I24(_) => 3,
        Value::I32(_) => 4,
        Value::I48(_) => 6,
        Value::I64(_) | Value::Float64(_) => 8,
        Value::Blob(b) => b.len(),
        Value::Text(b) => b.len(),
    }
}

/// The `n` serial types whose varints start at `pos`, with the position
/// after the last of them.
pub open spec fn serial_types_spec(s: Seq<u8>, pos: nat, n: nat) -> Option<(Seq<u64>, nat)>
    decreases n,
{
    if n == 0 {
        Some((Seq::empty(), pos))
    } else {
        match serial_types_spec(s, pos, (n - 1) as nat) {
            None => None,
            Some((ts, p)) => if p > s.len() {
                None
            } else {
                match varint_spec(s.subrange(p as int, s.len() as int)) {
                    None => None,
                    Some((t, k)) => Some((ts.push(t), p + k)),
                }
            },
        }
    }
}

/// The values of the first `k` serial types of `ts`, stored one after the
/// other from `start`, with the position after the last of them.
pub open spec fn columns_spec(s: Seq<u8>, start: nat, ts: Seq<u64>, k: nat) -> Option<
    (Seq<Value>, nat),
>
    decreases k,
{
    if k == 0 {
        Some((Seq::empty(), start))
    } else {
        match columns_spec(s, start, ts, (k - 1) as nat) {
            None => None,
            Some((vs, p)) => match column_spec(s, p as int, ts[k - 1]) {
                None => None,
                Some(v) => Some((vs.push(v), p + value_len(v))),
            },
        }
    }
}

/// The record at the start of `s` read as `n` columns: a varint with the
/// header's length, `n` serial-type varints inside the header, then the
/// values one after the other from the end of the header.
pub open spec fn record_spec(s: Seq<u8>, n: nat) -> Option<Seq<Value>> {
    match varint_spec(s) {
        None => None,
        Some((h, k)) => match serial_types_spec(s, k, n) {
            None => None,
            Some((ts, end)) => if end > h || h > s.len() {
                None
            } else {
                match columns_spec(s, h as nat, ts, n) {
                    None => None,
                    Some((vs, _)) => Some(vs),
                }
            },
        },
    }
}

/// Reads the `n`-byte big-endian unsigned number at `pos`.
fn read_be_uint(buf: &[u8], pos: usize, n: usize) -> (r: u64)
    requires
        n <= 8,
        pos + n <= buf@.len(),
    ensures
        r as nat == be_uint(buf@, pos as int, n as nat),
        (r as nat) < pow256(n as nat),
{
    let mut u: u64 = 0;
    let mut k: usize = 0;
    let len = buf.len();
    while k < n
        invariant
            k <= n <= 8,
            len == buf@.len(),
            pos + n <= buf@.len(),
            u as nat == be_uint(buf@, pos as int, k as nat),
            (u as nat) < pow256(k as nat),
        decreases n - k,
    {
        let b = buf[pos + k];
        proof {
            lemma_pow256_bounds((k + 1) as nat);
            let p = pow256(k as nat);
            assert(u * 256 + b < 256 * p) by (nonlinear_arith)
                requires
                    u < p,
                    b < 256,
            ;
        }
        u = u * 256 + b as u64;
        k = k + 1;
    }
    u
}

proof fn lemma_pow256_bounds(k: nat)
    requires
        k <= 8,
    ensures
        1 <= pow256(k) <= 0x1_0000_0000_0000_0000,
        k > 0 ==> pow256(k) == 256 * pow256((k - 1) as nat),
        k == 1 ==> pow256(k) == 0x100,
        k == 2 ==> pow256(k) == 0x1_0000,
        k == 3 ==> pow256(k) == 0x100_0000,
        k == 4 ==> pow256(k) == 0x1_0000_0000,
        k == 6 ==> pow256(k) == 0x1_0000_0000_0000,
        k == 8 ==> pow256(k) == 0x1_0000_0000_0000_0000,
{
    reveal_with_fuel(pow256, 9);
}

/// Reads the `n`-byte big-endian two's-complement number at `pos`.
fn read_be_int(buf: &[u8], pos: usize, n: usize) -> (r: i64)
    requires
        n == 1 || n == 2 || n == 3 || n == 4 || n == 6 || n == 8,
        pos + n <= buf@.len(),
    ensures
        r as int == be_int(buf@, pos as int, n as nat),
{
    let u = read_be_uint(buf, pos, n);
    proof {
        lemma_pow256_bounds(n as nat);
    }
    if n == 8 {
        if u >= 0x8000_0000_0000_0000 {
            ((u - 0x8000_0000_0000_0000) as i64) + i64::MIN
        } else {
            u as i64
        }
    } else {
        let p: u64 = if n == 1 {
            0x100
        } else if n == 2 {
            0x1_0000
        } else if n == 3 {
            0x100_0000
        } else if n == 4 {
            0x1_0000_0000
        } else {
            0x1_0000_0000_0000
        };
        if u >= p / 2 {
            (u as i64) - (p as i64)
        } else {
            u as i64
        }
    }
}

/// Decodes the value of serial type `serial_type` whose bytes start at `pos`.
pub fn read_column(buf: &[u8], pos: usize, serial_type: u64) -> (r: Result<ColumnValue, DbError>)
    requires
        pos <= buf@.len(),
    ensures
        match column_spec(buf@, pos as int, serial_type) {
            Some(v) => r is Ok && r.unwrap()@ == v,
            None => r == Err::<ColumnValue, DbError>(DbError::Format),
        },
{
    let t = serial_type;
    let len: u64 = if t == 0 || t == 8 || t == 9 {
        0
    } else if 1 <= t && t <= 4 {
        t
    } else if t == 5 {
        6
    } else if t == 6 || t == 7 {
        8
    } else if t >= 12 && t % 2 == 0 {
        (t - 12) / 2
    } else if t >= 13 {
        (t - 13) / 2
    } else {
        return Err(DbError::Format);
    };
    if len > (buf.len() - pos) as u64 {
        return Err(DbError::Format);
    }
    let n = len as usize;
    let v = if t == 0 {
        ColumnValue::Null
    } else if t == 1 {
        ColumnValue::I8(read_be_int(buf, pos, 1) as i8)
    } else if t == 2 {
        ColumnValue::I16(read_be_int(buf, pos, 2) as i16)
    } else if t == 3 {
        ColumnValue::I24(read_be_int(buf, pos, 3) as i32)
    } else if t == 4 {
        ColumnValue::I32(read_be_int(buf, pos, 4) as i32)
    } else if t == 5 {
        ColumnValue::I48(read_be_int(buf, pos, 6))
    } else if t == 6 {
        ColumnValue::I64(read_be_int(buf, pos, 8))
    } else if t == 7 {
        ColumnValue::Float64(read_be_uint(buf, pos, 8))
    } else if t == 8 {
        ColumnValue::False
    } else if t == 9 {
        ColumnValue::True
    } else {
        let mut bytes: Vec<u8> = Vec::new();
        push_all(&mut bytes, slice_subrange(buf, pos, pos + n));
        if t % 2 == 0 {
            ColumnValue::Blob(bytes)
        } else {
            ColumnValue::Text(bytes)
        }
    };
    Ok(v)
}

/// Decodes the value of serial type `serial_type` at the start of `stream`.
pub fn parse_column_value(stream: &[u8], serial_type: u64) -> (r: Result<ColumnValue, DbError>)
    ensures
        match column_spec(stream@, 0, serial_type) {
            Some(v) => r is Ok && r.unwrap()@ == v,
            None => r == Err::<ColumnValue, DbError>(DbError::Format),
        },
{
    read_column(stream, 0, serial_type)
}

proof fn lemma_serial_types_stay_failed(s: Seq<u8>, pos: nat, i: nat, n: nat)
    requires
        i <= n,
        serial_types_spec(s, pos, i) is None,
    ensures
        serial_types_spec(s, pos, n) is None,
    decreases n - i,
{
    if i < n {
        lemma_serial_types_stay_failed(s, pos, i + 1, n);
    }
}

proof fn lemma_columns_stay_failed(s: Seq<u8>, start: nat, ts: Seq<u64>, i: nat, n: nat)
    requires
        i <= n,
        columns_spec(s, start, ts, i) is None,
    ensures
        columns_spec(s, start, ts, n) is None,
    decreases n - i,
{
    if i < n {
        lemma_columns_stay_failed(s, start, ts, i + 1, n);
    }
}

/// A decoded value takes the number of bytes that its serial type declares,
/// and those bytes lie inside `s`.
pub proof fn lemma_column_len(s: Seq<u8>, i: int, t: u64)
    requires
        column_spec(s, i, t) is Some,
    ensures
        serial_len(t) == Some(value_len(column_spec(s, i, t).unwrap())),
        0 <= i,
        i + value_len(column_spec(s, i, t).unwrap()) <= s.len(),
{
}

/// Decodes the record at the start of `stream` as `column_count` columns.
pub fn parse_record(stream: &[u8], column_count: usize) -> (r: Result<Vec<ColumnValue>, DbError>)
    ensures
        match record_spec(stream@, column_count as nat) {
            Some(vs) => r is Ok && values_view(r.unwrap()@) == vs,
            None => r == Err::<Vec<ColumnValue>, DbError>(DbError::Format),
        },
{
    let ghost s = stream@;
    let len = stream.len();
    assert(s.subrange(0, s.len() as int) =~= s);
    let (header_size, first) = match read_varint(stream, 0) {
        Ok(x) => x,
        Err(e) => {
            return Err(e);
        },
    };
    let mut types: Vec<u64> = Vec::new();
    let mut p: usize = first;
    let mut i: usize = 0;
    while i < column_count
        invariant
            s == stream@,
            len == s.len(),
            i <= column_count,
            p <= len,
            varint_spec(s) == Some((header_size, first as nat)),
            types@.len() == i,
            serial_types_spec(s, first as nat, i as nat) == Some((types@, p as nat)),
        decreases column_count - i,
    {
        match read_varint(stream, p) {
            Ok((t, n)) => {
                types.push(t);
                p = p + n;
            },
            Err(e) => {
                proof {
                    lemma_serial_types_stay_failed(
                        s,
                        first as nat,
                        (i + 1) as nat,
                        column_count as nat,
                    );
                }
                return Err(e);
            },
        }
        i = i + 1;
    }
    if (p as u64) > header_size || header_size > len as u64 {
        return Err(DbError::Format);
    }
    let mut values: Vec<ColumnValue> = Vec::new();
    let mut pos: usize = header_size as usize;
    let mut j: usize = 0;
    while j < column_count
        invariant
            s == stream@,
            len == s.len(),
            j <= column_count,
            types@.len() == column_count,
            varint_spec(s) == Some((header_size, first as nat)),
            serial_types_spec(s, first as nat, column_count as nat) == Some((types@, p as nat)),
            p <= header_size <= len,
            pos <= len,
            columns_spec(s, header_size as nat, types@, j as nat) == Some(
                (values_view(values@), pos as nat),
            ),
        decreases column_count - j,
    {
        match read_column(stream, pos, types[j]) {
            Ok(v) => {
                proof {
                    lemma_column_len(s, pos as int, types@[j as int]);
                    assert(values_view(values@.push(v)) =~= values_view(values@).push(v@));
                }
                let n = v.length();
                values.push(v);
                pos = pos + n;
            },
            Err(e) => {
                proof {
                    lemma_columns_stay_failed(
                        s,
                        header_size as nat,
                        types@,
                        (j + 1) as nat,
                        column_count as nat,
                    );
                }
                return Err(e);
            },
        }
        j = j + 1;
    }
    Ok(values)
}

/// Number of value bytes that the serial types `ts` declare.
pub open spec fn declared_len(ts: Seq<u64>) -> nat
    decreases ts.len(),
{
    if ts.len() == 0 {
        0
    } else {
        declared_len(ts.drop_last()) + match serial_len(ts.last()) {
            Some(n) => n,
            None => 0,
        }
    }
}

/// Number of bytes that the values `vs` take in a record.
pub open spec fn values_len(vs: Seq<Value>) -> nat
    decreases vs.len(),
{
    if vs.len() == 0 {
        0
    } else {
        values_len(vs.drop_last()) + value_len(vs.last())
    }
}

proof fn lemma_columns_span(s: Seq<u8>, start: nat, ts: Seq<u64>, k: nat)
    requires
        k <= ts.len(),
        start <= s.len(),
        columns_spec(s, start, ts, k) is Some,
    ensures
        ({
            let (vs, p) = columns_spec(s, start, ts, k).unwrap();
            &&& vs.len() == k
            &&& values_len(vs) == declared_len(ts.take(k as int))
            &&& p == start + values_len(vs)
            &&& p <= s.len()
        }),
    decreases k,
{
    if k == 0 {
        assert(ts.take(0) =~= Seq::<u64>::empty());
    } else {
        let k1 = (k - 1) as nat;
        lemma_columns_span(s, start, ts, k1);
        let (vs, p) = columns_spec(s, start, ts, k1).unwrap();
        lemma_column_len(s, p as int, ts[k1 as int]);
        let v = column_spec(s, p as int, ts[k1 as int]).unwrap();
        assert(ts.take(k as int).drop_last() =~= ts.take(k1 as int));
        assert(vs.push(v).drop_last() =~= vs);
    }
}

/// A record decoded as `n` columns takes, after its header, exactly the
/// bytes that the header's serial types declare, and no byte past the end
/// of `s`.
pub proof fn lemma_record_consumes_declared_span(s: Seq<u8>, n: nat)
    requires
        record_spec(s, n) is Some,
    ensures
        ({
            let (h, k) = varint_spec(s).unwrap();
            let (ts, _) = serial_types_spec(s, k, n).unwrap();
            &&& record_spec(s, n).unwrap().len() == n
            &&& values_len(record_spec(s, n).unwrap()) == declared_len(ts)
            &&& h + declared_len(ts) <= s.len()
        }),
{
    let (h, k) = varint_spec(s).unwrap();
    let (ts, _) = serial_types_spec(s, k, n).unwrap();
    lemma_serial_types_len(s, k, n);
    lemma_columns_span(s, h as nat, ts, n);
    assert(ts.take(n as int) =~= ts);
}

proof fn lemma_serial_types_len(s: Seq<u8>, pos: nat, n: nat)
    requires
        serial_types_spec(s, pos, n) is Some,
    ensures
        serial_types_spec(s, pos, n).unwrap().0.len() == n,
    decreases n,
{
    if n > 0 {
        lemma_serial_types_len(s, pos, (n - 1) as nat);
    }
}

proof fn lemma_serial_types_prefix(s: Seq<u8>, pos: nat, n: nat, m: nat)
    requires
        n <= m,
        serial_types_spec(s, pos, m) is Some,
    ensures
        serial_types_spec(s, pos, n) is Some,
        serial_types_spec(s, pos, n).unwrap().0 == serial_types_spec(s, pos, m).unwrap().0.take(
            n as int,
        ),
        serial_types_spec(s, pos, n).unwrap().1 <= serial_types_spec(s, pos, m).unwrap().1,
    decreases m,
{
    lemma_serial_types_len(s, pos, m);
    if n == m {
        let tm = serial_types_spec(s, pos, m).unwrap().0;
        assert(tm.take(n as int) =~= tm);
    } else {
        let m1 = (m - 1) as nat;
        lemma_serial_types_prefix(s, pos, n, m1);
        lemma_serial_types_len(s, pos, m1);
        let t1 = serial_types_spec(s, pos, m1).unwrap().0;
        let tm = serial_types_spec(s, pos, m).unwrap().0;
        assert(tm.take(n as int) =~= t1.take(n as int));
    }
}

proof fn lemma_columns_same_types(s: Seq<u8>, start: nat, ts1: Seq<u64>, ts2: Seq<u64>, k: nat)
    requires
        k <= ts1.len(),
        k <= ts2.len(),
        ts1.take(k as int) == ts2.take(k as int),
    ensures
        columns_spec(s, start, ts1, k) == columns_spec(s, start, ts2, k),
    decreases k,
{
    if k > 0 {
        let k1 = (k - 1) as nat;
        assert(ts1.take(k1 as int) =~= ts1.take(k as int).take(k1 as int));
        assert(ts2.take(k1 as int) =~= ts2.take(k as int).take(k1 as int));
        assert(ts1[k1 as int] == ts1.take(k as int)[k1 as int]);
        assert(ts2[k1 as int] == ts2.take(k as int)[k1 as int]);
        lemma_columns_same_types(s, start, ts1, ts2, k1);
    }
}

proof fn lemma_columns_len(s: Seq<u8>, start: nat, ts: Seq<u64>, k: nat)
    requires
        columns_spec(s, start, ts, k) is Some,
    ensures
        columns_spec(s, start, ts, k).unwrap().0.len() == k,
    decreases k,
{
    if k > 0 {
        lemma_columns_len(s, start, ts, (k - 1) as nat);
    }
}

proof fn lemma_columns_prefix(s: Seq<u8>, start: nat, ts: Seq<u64>, n: nat, m: nat)
    requires
        n <= m,
        columns_spec(s, start, ts, m) is Some,
    ensures
        columns_spec(s, start, ts, n) is Some,
        columns_spec(s, start, ts, n).unwrap().0 == columns_spec(s, start, ts, m).unwrap().0.take(
            n as int,
        ),
    decreases m,
{
    lemma_columns_len(s, start, ts, m);
    if n == m {
        let vm = columns_spec(s, start, ts, m).unwrap().0;
        assert(vm.take(n as int) =~= vm);
    } else {
        let m1 = (m - 1) as nat;
        lemma_columns_prefix(s, start, ts, n, m1);
        lemma_columns_len(s, start, ts, m1);
        let v1 = columns_spec(s, start, ts, m1).unwrap().0;
        let vm = columns_spec(s, start, ts, m).unwrap().0;
        assert(vm.take(n as int) =~= v1.take(n as int));
    }
}

/// Decoding a record as fewer columns gives the first of the columns that
/// decoding it as more gives.
pub proof fn lemma_record_prefix(s: Seq<u8>, n: nat, m: nat)
    requires
        n <= m,
        record_spec(s, m) is Some,
    ensures
        record_spec(s, n) == Some(record_spec(s, m).unwrap().take(n as int)),
{
    let (h, k) = varint_spec(s).unwrap();
    lemma_serial_types_prefix(s, k, n, m);
    lemma_serial_types_len(s, k, n);
    lemma_serial_types_len(s, k, m);
    let tn = serial_types_spec(s, k, n).unwrap().0;
    let tm = serial_types_spec(s, k, m).unwrap().0;
    assert(tn.take(n as int) =~= tn);
    assert(tm.take(n as int).take(n as int) =~= tm.take(n as int));
    lemma_columns_same_types(s, h as nat, tn, tm, n);
    lemma_columns_prefix(s, h as nat, tm, n, m);
}

impl ColumnValue {
    /// Number of bytes that the value takes in a record.
    pub fn length(&self) -> (r: usize)
        ensures
            r == value_len(self@),
    {
        match self {
            ColumnValue::Null => 0,
            ColumnValue::I8(_) => 1,
            ColumnValue::I16(_) => 2,
            ColumnValue::I24(_) => 3,
            ColumnValue::I32(_) => 4,
            ColumnValue::I48(_) => 6,
            ColumnValue::I64(_) => 8,
            ColumnValue::Float64(_) => 8,
            ColumnValue::False => 0,
            ColumnValue::True => 0,
            ColumnValue::Blob(v) => v.len(),
            ColumnValue::Text(v) => v.len(),
        }
    }
    /// The value as a `u32`, where it is an integer in that range.
    pub fn read_u32(&self) -> (r: Option<u32>)
        ensures
            r == (match int_of(self@) {
                Some(i) => if 0 <= i <= u32::MAX {
                    Some(i as u32)
                } else {
                    None
                },
                None => None,
            }),
    {
        match self.read_i64() {
            Some(i) => if 0 <= i && i <= 0xffff_ffff {
                Some(i as u32)
            } else {
                None
            },
            None => None,
        }
    }

    /// The value as a `usize`, where it is an integer in that range.
    pub fn read_usize(&self) -> (r: Option<usize>)
        ensures
            r == (match int_of(self@) {
                Some(i) => if 0 <= i <= usize::MAX {
                    Some(i as usize)
                } else {
                    None
                },
                None => None,
            }),
    {
        match self.read_i64() {
            Some(i) => if 0 <= i && (i as u64) <= (usize::MAX as u64) {
                Some(i as usize)
            } else {
                None
            },
            None => None,
        }
    }

    /// The value as an `i64`, where it is an integer.
    pub fn read_i64(&self) -> (r: Option<i64>)
        ensures
            match int_of(self@) {
                Some(i) => r == Some(i as i64) && i64::MIN <= i <= i64::MAX,
                None => r is None,
            },
    {
        match self {
            ColumnValue::I8(v) => Some(*v as i64),
            ColumnValue::I16(v) => Some(*v as i64),
            ColumnValue::I24(v) => Some(*v as i64),
            ColumnValue::I32(v) => Some(*v as i64),
            ColumnValue::I48(v) => Some(*v),
            ColumnValue::I64(v) => Some(*v),
            ColumnValue::False => Some(0),
            ColumnValue::True => Some(1),
            _ => None,
        }
    }

    /// The text by which the value is shown; `None` for a float.
    pub fn display(&self) -> (r: Option<Vec<u8>>)
        ensures
            match display_spec(self@) {
                Some(t) => r is Some && r.unwrap()@ == t,
                None => r is None,
            },
    {
        let mut out: Vec<u8> = Vec::new();
        match self {
            ColumnValue::Null => {},
            ColumnValue::Float64(_) => {
                return None;
            },
            ColumnValue::False => {
                out.push(102);
                out.push(97);
                out.push(108);
                out.push(115);
                out.push(101);
            },
            ColumnValue::True => {
                out.push(116);
                out.push(114);
                out.push(117);
                out.push(101);
            },
            ColumnValue::Blob(b) => {
                out.push(91);
                let mut i: usize = 0;
                while i < b.len()
                    invariant
                        i <= b@.len(),
                        out@ == seq![91u8] + byte_list(b@.take(i as int)),
                    decreases b@.len() - i,
                {
                    if i > 0 {
                        out.push(44);
                        out.push(32);
                    }
                    push_decimal(&mut out, b[i] as u64);
                    proof {
                        assert(b@.take(i + 1).drop_last() =~= b@.take(i as int));
                        if i == 0 {
                            assert(b@.take(0) =~= Seq::<u8>::empty());
                        }
                        assert(out@ =~= seq![91u8] + byte_list(b@.take(i + 1)));
                    }
                    i = i + 1;
                }
                out.push(93);
                assert(b@.take(b@.len() as int) =~= b@);
            },
            ColumnValue::Text(t) => {
                push_all(&mut out, t.as_slice());
            },
            _ => {
                match self.read_i64() {
                    Some(i) => push_signed_decimal(&mut out, i),
                    None => {},
                }
            },
        }
        assert(display_spec(self@) is Some ==> out@ =~= display_spec(self@).unwrap());
        Some(out)
    }

    /// A copy of the value.
    pub fn copied(&self) -> (r: ColumnValue)
        ensures
            r@ == self@,
    {
        match self {
            ColumnValue::Blob(b) => ColumnValue::Blob(b.clone()),
            ColumnValue::Text(t) => ColumnValue::Text(t.clone()),
            ColumnValue::Null => ColumnValue::Null,
            ColumnValue::I8(v) => ColumnValue::I8(*v),
            ColumnValue::I16(v) => ColumnValue::I16(*v),
            ColumnValue::I24(v) => ColumnValue::I24(*v),
            ColumnValue::I32(v) => ColumnValue::I32(*v),
            ColumnValue::I48(v) => ColumnValue::I48(*v),
            ColumnValue::I64(v) => ColumnValue::I64(*v),
            ColumnValue::Float64(v) => ColumnValue::Float64(*v),
            ColumnValue::False => ColumnValue::False,
            ColumnValue::True => ColumnValue::True,
        }
    }
}

} // verus!
