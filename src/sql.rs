use vstd::prelude::*;
use vstd::slice::slice_subrange;

use crate::query::{texts_view, Filter, Query, QueryModel};
use crate::schema::{lemma_next_comma_bounds, next_comma};
use crate::text::{trim, trim_ascii, trim_bytes, trim_with, Strip};

verus! {

/// A query that selects columns from a table.
pub const SELECT_PATTERN: &'static str = "select ([a-zA-Z0-9*].*) FROM ([a-zA-Z0-9].*)";

/// A query that selects columns from a table where a column equals a value.
pub const WHERE_PATTERN: &'static str =
    "select ([a-zA-Z0-9*].*) FROM ([a-zA-Z0-9].*) WHERE ([a-zA-Z0-9].*) = ([a-zA-Z0-9'].*)";

/// The capture groups of the first match of `pattern`, compiled without
/// regard to case, in `text`: group 0 is the whole match, and a group that
/// took part in no match is `None`. `None` where nothing matches or the
/// pattern does not compile.
pub uninterp spec fn ci_captures(pattern: Seq<char>, text: Seq<u8>) -> Option<
    Seq<Option<Seq<u8>>>,
>;

/// The views of a sequence of capture groups.
pub open spec fn groups_view(g: Seq<Option<Vec<u8>>>) -> Seq<Option<Seq<u8>>> {
    g.map_values(
        |o: Option<Vec<u8>>|
            match o {
                Some(v) => Some(v@),
                None => None,
            },
    )
}

/// The view of the result of a search for capture groups.
pub open spec fn captures_view(r: Option<Vec<Option<Vec<u8>>>>) -> Option<Seq<Option<Seq<u8>>>> {
    match r {
        Some(g) => Some(groups_view(g@)),
        None => None,
    }
}

/// Relies on `regex::bytes::RegexBuilder` with `case_insensitive(true)` and
/// on `regex::bytes::Regex::captures`: the groups of the first match, which
/// depend on the pattern and the text alone.
#[verifier::external_body]
fn captures_ci(pattern: &str, text: &[u8]) -> (r: Option<Vec<Option<Vec<u8>>>>)
    ensures
        captures_view(r) == ci_captures(pattern@, text@),
{
    let re = regex::bytes::RegexBuilder::new(pattern).case_insensitive(true).build().ok()?;
    let caps = re.captures(text)?;
    Some(caps.iter().map(|m| m.map(|m| m.as_bytes().to_vec())).collect())
}

/// Group `i` of `gs`; `None` where there is no such group.
pub open spec fn group(gs: Seq<Option<Seq<u8>>>, i: int) -> Option<Seq<u8>> {
    if 0 <= i < gs.len() {
        gs[i]
    } else {
        None
    }
}

/// The comma-separated items of `s` from `start` on: each non-empty piece,
/// trimmed of white space.
pub open spec fn column_list_from(s: Seq<u8>, start: nat) -> Seq<Seq<u8>>
    decreases s.len() - start,
{
    if start > s.len() {
        Seq::empty()
    } else {
        let c = next_comma(s, start, s.len());
        let piece = s.subrange(start as int, c as int);
        let head = if piece.len() == 0 {
            Seq::empty()
        } else {
            seq![trim(piece)]
        };
        if c >= s.len() {
            head
        } else {
            proof {
                lemma_next_comma_bounds(s, start, s.len());
            }
            head + column_list_from(s, c + 1)
        }
    }
}

/// The query that the groups of a match of `WHERE_PATTERN` describe: the
/// projected columns, the table name without the non-letters around it,
/// and the filter's column and literal, trimmed, the literal also of its
/// single quotes.
pub open spec fn where_query_spec(gs: Seq<Option<Seq<u8>>>) -> Option<QueryModel> {
    match (group(gs, 1), group(gs, 2), group(gs, 3), group(gs, 4)) {
        (Some(cols), Some(table), Some(param), Some(value)) => Some(
            QueryModel {
                columns: column_list_from(cols, 0),
                table: trim_with(Strip::NonLetter, table),
                filter: Some((trim(param), trim_with(Strip::Quote, trim(value)))),
            },
        ),
        _ => None,
    }
}

/// The query that the groups of a match of `SELECT_PATTERN` describe.
pub open spec fn select_query_spec(gs: Seq<Option<Seq<u8>>>) -> Option<QueryModel> {
    match (group(gs, 1), group(gs, 2)) {
        (Some(cols), Some(table)) => Some(
            QueryModel {
                columns: column_list_from(cols, 0),
                table: trim_with(Strip::NonLetter, table),
                filter: None,
            },
        ),
        _ => None,
    }
}

/// The query that a text describes, given what the two patterns find in
/// it: the filtered form where it matches, the plain form otherwise.
pub open spec fn parse_query_spec(
    with_filter: Option<Seq<Option<Seq<u8>>>>,
    plain: Option<Seq<Option<Seq<u8>>>>,
) -> Option<QueryModel> {
    match with_filter {
        Some(gs) if where_query_spec(gs) is Some => where_query_spec(gs),
        _ => match plain {
            Some(gs) => select_query_spec(gs),
            None => None,
        },
    }
}

/// The comma-separated column names of `s`, each trimmed, empty pieces
/// left out.
pub fn column_list(s: &[u8]) -> (r: Vec<Vec<u8>>)
    ensures
        texts_view(r@) == column_list_from(s@, 0),
{
    let len = s.len();
    let mut out: Vec<Vec<u8>> = Vec::new();
    let mut start: usize = 0;
    loop
        invariant
            len == s@.len(),
            start <= len,
            column_list_from(s@, 0) == texts_view(out@) + column_list_from(s@, start as nat),
        decreases len - start,
    {
        let mut c: usize = start;
        while c < len && s[c] != 44
            invariant
                start <= c <= len == s@.len(),
                next_comma(s@, start as nat, len as nat) == next_comma(s@, c as nat, len as nat),
            decreases len - c,
        {
            c = c + 1;
        }
        let ghost prev = texts_view(out@);
        if c > start {
            let item = trim_ascii(slice_subrange(s, start, c));
            out.push(item);
            assert(texts_view(out@) =~= prev + seq![trim(s@.subrange(start as int, c as int))]);
        } else {
            assert(texts_view(out@) =~= prev + Seq::<Seq<u8>>::empty());
        }
        if c >= len {
            assert(column_list_from(s@, 0) =~= texts_view(out@));
            return out;
        }
        assert(column_list_from(s@, 0) =~= texts_view(out@) + column_list_from(
            s@,
            (c + 1) as nat,
        ));
        start = c + 1;
    }
}

/// Group `i` of `gs`, where there is one.
fn group_at(gs: &Vec<Option<Vec<u8>>>, i: usize) -> (r: Option<&Vec<u8>>)
    ensures
        match group(groups_view(gs@), i as int) {
            Some(g) => r is Some && r.unwrap()@ == g,
            None => r is None,
        },
{
    if i < gs.len() {
        match &gs[i] {
            Some(g) => Some(g),
            None => None,
        }
    } else {
        None
    }
}

/// The query that the groups of a match of `WHERE_PATTERN` describe.
pub fn where_query(gs: &Vec<Option<Vec<u8>>>) -> (r: Option<Query>)
    ensures
        match where_query_spec(groups_view(gs@)) {
            Some(q) => r is Some && r.unwrap()@ == q,
            None => r is None,
        },
{
    let (cols, table, param, value) = match (
        group_at(gs, 1),
        group_at(gs, 2),
        group_at(gs, 3),
        group_at(gs, 4),
    ) {
        (Some(cols), Some(table), Some(param), Some(value)) => (cols, table, param, value),
        _ => {
            return None;
        },
    };
    let column = trim_ascii(param.as_slice());
    let trimmed = trim_ascii(value.as_slice());
    let literal = trim_bytes(Strip::Quote, trimmed.as_slice());
    Some(
        Query {
            columns: column_list(cols.as_slice()),
            table: trim_bytes(Strip::NonLetter, table.as_slice()),
            filter: Some(Filter { column, literal }),
        },
    )
}

/// The query that the groups of a match of `SELECT_PATTERN` describe.
pub fn select_query(gs: &Vec<Option<Vec<u8>>>) -> (r: Option<Query>)
    ensures
        match select_query_spec(groups_view(gs@)) {
            Some(q) => r is Some && r.unwrap()@ == q,
            None => r is None,
        },
{
    let (cols, table) = match (group_at(gs, 1), group_at(gs, 2)) {
        (Some(cols), Some(table)) => (cols, table),
        _ => {
            return None;
        },
    };
    Some(
        Query {
            columns: column_list(cols.as_slice()),
            table: trim_bytes(Strip::NonLetter, table.as_slice()),
            filter: None,
        },
    )
}

/// Reads a query's columns, table and equality filter from its text.
/// `None` where the text is not a query of either form.
pub fn read_column_and_table(query: &[u8]) -> (r: Option<Query>)
    ensures
        match parse_query_spec(
            ci_captures(WHERE_PATTERN@, query@),
            ci_captures(SELECT_PATTERN@, query@),
        ) {
            Some(q) => r is Some && r.unwrap()@ == q,
            None => r is None,
        },
{
    match captures_ci(WHERE_PATTERN, query) {
        Some(gs) => match where_query(&gs) {
            Some(q) => {
                return Some(q);
            },
            None => {},
        },
        None => {},
    }
    match captures_ci(SELECT_PATTERN, query) {
        Some(gs) => select_query(&gs),
        None => None,
    }
}

} // verus!
