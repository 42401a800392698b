use vstd::prelude::*;
use vstd::slice::slice_subrange;

use crate::record::{display_spec, int_of, values_view, ColumnValue, Value};
use crate::text::{is_space, is_space_byte, push_all, trim, trim_ascii};

verus! {

/// A catalog entry, as the contracts speak of it.
pub struct SchemaModel {
    pub kind: Seq<u8>,
    pub name: Seq<u8>,
    pub table_name: Seq<u8>,
    pub root_page: u32,
    pub sql: Seq<u8>,
}

/// One entry of the schema catalog: a table, an index, a view or a trigger.
/// The texts are kept as stored.
#[derive(Debug)]
pub struct Schema {
    pub kind: Vec<u8>,
    pub name: Vec<u8>,
    pub table_name: Vec<u8>,
    pub root_page: u32,
    pub sql: Vec<u8>,
}

impl View for Schema {
    type V = SchemaModel;

    open spec fn view(&self) -> SchemaModel {
        SchemaModel {
            kind: self.kind@,
            name: self.name@,
            table_name: self.table_name@,
            root_page: self.root_page,
            sql: self.sql@,
        }
    }
}

/// The catalog entry that the columns `vs` of a catalog row describe: the
/// texts of the first, second, third and fifth columns, and the integer in
/// the fourth. `None` where there are fewer than five columns, one of the
/// texts is a float, or the fourth is no integer that fits a `u32`.
pub open spec fn schema_spec(vs: Seq<Value>) -> Option<SchemaModel> {
    if vs.len() < 5 {
        None
    } else {
        match (
            display_spec(vs[0]),
            display_spec(vs[1]),
            display_spec(vs[2]),
            int_of(vs[3]),
            display_spec(vs[4]),
        ) {
            (Some(kind), Some(name), Some(table_name), Some(root), Some(sql)) => if 0 <= root
                <= u32::MAX {
                Some(SchemaModel { kind, name, table_name, root_page: root as u32, sql })
            } else {
                None
            },
            _ => None,
        }
    }
}

impl Schema {
    /// Reads a catalog entry from the columns of a catalog row.
    pub fn parse(record: Vec<ColumnValue>) -> (r: Option<Schema>)
        ensures
            match schema_spec(values_view(record@)) {
                Some(m) => r is Some && r.unwrap()@ == m,
                None => r is None,
            },
    {
        if record.len() < 5 {
            return None;
        }
        let ghost vs = values_view(record@);
        assert(vs[0] == record@[0]@ && vs[1] == record@[1]@ && vs[2] == record@[2]@);
        assert(vs[3] == record@[3]@ && vs[4] == record@[4]@);
        let kind = record[0].display();
        let name = record[1].display();
        let table_name = record[2].display();
        let root_page = record[3].read_u32();
        let sql = record[4].display();
        match (kind, name, table_name, root_page, sql) {
            (Some(kind), Some(name), Some(table_name), Some(root_page), Some(sql)) => Some(
                Schema { kind, name, table_name, root_page, sql },
            ),
            _ => None,
        }
    }
}

/// Whether the two byte strings are equal.
pub fn bytes_eq(a: &[u8], b: &[u8]) -> (r: bool)
    ensures
        r == (a@ == b@),
{
    if a.len() != b.len() {
        return false;
    }
    let mut i: usize = 0;
    while i < a.len()
        invariant
            a@.len() == b@.len(),
            i <= a@.len(),
            a@.subrange(0, i as int) == b@.subrange(0, i as int),
        decreases a@.len() - i,
    {
        if a[i] != b[i] {
            assert(a@[i as int] != b@[i as int]);
            return false;
        }
        i = i + 1;
        assert(a@.subrange(0, i as int) =~= a@.subrange(0, i - 1).push(a@[i - 1]));
        assert(b@.subrange(0, i as int) =~= b@.subrange(0, i - 1).push(b@[i - 1]));
    }
    assert(a@ =~= a@.subrange(0, i as int));
    assert(b@ =~= b@.subrange(0, i as int));
    true
}

/// Index of the first `(` in `s`, or the length of `s`.
pub open spec fn open_paren(s: Seq<u8>, i: nat) -> nat
    decreases s.len() - i,
{
    if i >= s.len() {
        s.len()
    } else if s[i as int] == 40 {
        i
    } else {
        open_paren(s, i + 1)
    }
}

/// Index of the last `)` of `s` before `j`, or the length of `s`.
pub open spec fn close_paren(s: Seq<u8>, j: nat) -> nat
    decreases j,
{
    if j == 0 || j > s.len() {
        s.len()
    } else if s[j - 1] == 41 {
        (j - 1) as nat
    } else {
        close_paren(s, (j - 1) as nat)
    }
}

/// Index of the first comma of `s` in `[i, hi)`, or `hi`.
pub open spec fn next_comma(s: Seq<u8>, i: nat, hi: nat) -> nat
    decreases hi - i,
{
    if i >= hi {
        hi
    } else if s[i as int] == 44 {
        i
    } else {
        next_comma(s, i + 1, hi)
    }
}

/// Length of the first word of `t`: the bytes before its first white space.
pub open spec fn word_end(t: Seq<u8>, i: nat) -> nat
    decreases t.len() - i,
{
    if i >= t.len() {
        t.len()
    } else if is_space(t[i as int]) {
        i
    } else {
        word_end(t, i + 1)
    }
}

/// Whether `a` and `b` are a pair of quotes around an identifier.
pub open spec fn quote_pair(a: u8, b: u8) -> bool {
    (a == 34 && b == 34) || (a == 96 && b == 96) || (a == 91 && b == 93) || (a == 39 && b == 39)
}

/// `w` without the quotes around it, if it has them.
pub open spec fn unquote(w: Seq<u8>) -> Seq<u8> {
    if w.len() >= 2 && quote_pair(w[0], w.last()) {
        w.subrange(1, w.len() - 1)
    } else {
        w
    }
}

/// The name that a column definition gives: its first word, unquoted.
pub open spec fn column_name(def: Seq<u8>) -> Seq<u8> {
    let t = trim(def);
    unquote(t.take(word_end(t, 0) as int))
}

/// The names of the comma-separated definitions of `s` in `[start, hi)`.
pub open spec fn names_from(s: Seq<u8>, start: nat, hi: nat) -> Seq<Seq<u8>>
    decreases hi - start,
{
    if start > hi {
        Seq::empty()
    } else {
        let c = next_comma(s, start, hi);
        let first = column_name(s.subrange(start as int, c as int));
        if c >= hi {
            seq![first]
        } else {
            proof {
                lemma_next_comma_bounds(s, start, hi);
            }
            seq![first] + names_from(s, c + 1, hi)
        }
    }
}

/// The names of the columns that `CREATE TABLE` or `CREATE INDEX` text
/// declares: between its first `(` and its last `)`, each comma-separated
/// definition gives its first word, without quotes. No `(` followed by a
/// `)`: no names.
pub open spec fn column_names(sql: Seq<u8>) -> Seq<Seq<u8>> {
    let a = open_paren(sql, 0);
    let b = close_paren(sql, sql.len());
    if a < b && b < sql.len() {
        names_from(sql, a + 1, b)
    } else {
        Seq::empty()
    }
}

/// Position of the first name in `names` from `i` on that equals `n`.
pub open spec fn position_from(names: Seq<Seq<u8>>, n: Seq<u8>, i: nat) -> Option<nat>
    decreases names.len() - i,
{
    if i >= names.len() {
        None
    } else if names[i as int] == n {
        Some(i)
    } else {
        position_from(names, n, i + 1)
    }
}

/// Position of the first name in `names` that equals `n`.
pub open spec fn position_of(names: Seq<Seq<u8>>, n: Seq<u8>) -> Option<nat> {
    position_from(names, n, 0)
}

pub proof fn lemma_next_comma_bounds(s: Seq<u8>, i: nat, hi: nat)
    requires
        i <= hi,
    ensures
        i <= next_comma(s, i, hi) <= hi,
    decreases hi - i,
{
    if i < hi && s[i as int] != 44 {
        lemma_next_comma_bounds(s, i + 1, hi);
    }
}

proof fn lemma_names_from_len(s: Seq<u8>, start: nat, hi: nat)
    requires
        start <= hi,
    ensures
        names_from(s, start, hi).len() <= hi - start + 1,
    decreases hi - start,
{
    let c = next_comma(s, start, hi);
    lemma_next_comma_bounds(s, start, hi);
    if c < hi {
        lemma_names_from_len(s, c + 1, hi);
    }
}

/// The name that the column definition `def` gives.
fn definition_name(def: &[u8]) -> (r: Vec<u8>)
    ensures
        r@ == column_name(def@),
{
    let t = trim_ascii(def);
    let mut e: usize = 0;
    while e < t.len() && !is_space_byte(t[e])
        invariant
            e <= t@.len(),
            word_end(t@, 0) == word_end(t@, e as nat),
        decreases t@.len() - e,
    {
        e = e + 1;
    }
    let ghost w = t@.take(e as int);
    let (lo, hi) = if e >= 2 && ((t[0] == 34 && t[e - 1] == 34) || (t[0] == 96 && t[e - 1] == 96)
        || (t[0] == 91 && t[e - 1] == 93) || (t[0] == 39 && t[e - 1] == 39)) {
        (1, e - 1)
    } else {
        (0, e)
    };
    let mut out: Vec<u8> = Vec::new();
    push_all(&mut out, slice_subrange(t.as_slice(), lo, hi));
    assert(out@ =~= unquote(w));
    out
}

/// The names of the columns that `CREATE TABLE` or `CREATE INDEX` text
/// declares, in order; a name's position is its column's position.
pub fn find_column_positions(schema: &[u8]) -> (r: Vec<Vec<u8>>)
    ensures
        r@.map_values(|n: Vec<u8>| n@) == column_names(schema@),
        r@.len() < schema@.len() || r@.len() == 0,
{
    let ghost s = schema@;
    let len = schema.len();
    let mut a: usize = 0;
    while a < len && schema[a] != 40
        invariant
            a <= len == s.len(),
            s == schema@,
            open_paren(s, 0) == open_paren(s, a as nat),
        decreases len - a,
    {
        a = a + 1;
    }
    let mut b: usize = len;
    while b > 0 && schema[b - 1] != 41
        invariant
            b <= len == s.len(),
            s == schema@,
            close_paren(s, len as nat) == close_paren(s, b as nat),
        decreases b,
    {
        b = b - 1;
    }
    let b: usize = if b == 0 {
        len
    } else {
        b - 1
    };
    let mut names: Vec<Vec<u8>> = Vec::new();
    if !(a < b && b < len) {
        assert(names@.map_values(|n: Vec<u8>| n@) =~= column_names(s));
        return names;
    }
    proof {
        lemma_names_from_len(s, (a + 1) as nat, b as nat);
    }
    let mut start: usize = a + 1;
    loop
        invariant
            a < b < len == s.len(),
            s == schema@,
            start <= b,
            column_names(s).len() <= b - a,
            column_names(s) == names@.map_values(|n: Vec<u8>| n@) + names_from(
                s,
                start as nat,
                b as nat,
            ),
        decreases b - start,
    {
        let mut c: usize = start;
        while c < b && schema[c] != 44
            invariant
                start <= c <= b < len == s.len(),
                s == schema@,
                next_comma(s, start as nat, b as nat) == next_comma(s, c as nat, b as nat),
            decreases b - c,
        {
            c = c + 1;
        }
        let name = definition_name(slice_subrange(schema, start, c));
        let ghost before = names@.map_values(|n: Vec<u8>| n@);
        names.push(name);
        proof {
            assert(names@.map_values(|n: Vec<u8>| n@) =~= before.push(
                column_name(s.subrange(start as int, c as int)),
            ));
        }
        if c >= b {
            assert(column_names(s) =~= names@.map_values(|n: Vec<u8>| n@));
            return names;
        }
        proof {
            assert(column_names(s) =~= names@.map_values(|n: Vec<u8>| n@) + names_from(
                s,
                (c + 1) as nat,
                b as nat,
            ));
        }
        start = c + 1;
    }
}

/// Position of the first of `names` that equals `name`.
pub fn column_position(names: &Vec<Vec<u8>>, name: &[u8]) -> (r: Option<usize>)
    ensures
        match position_of(names@.map_values(|n: Vec<u8>| n@), name@) {
            Some(i) => r == Some(i as usize),
            None => r is None,
        },
        r is Some ==> r.unwrap() < names@.len(),
{
    let ghost ns = names@.map_values(|n: Vec<u8>| n@);
    let mut i: usize = 0;
    while i < names.len()
        invariant
            i <= names@.len(),
            ns == names@.map_values(|n: Vec<u8>| n@),
            position_of(ns, name@) == position_from(ns, name@, i as nat),
        decreases names@.len() - i,
    {
        if bytes_eq(names[i].as_slice(), name) {
            return Some(i);
        }
        i = i + 1;
    }
    None
}

} // verus!
