use vstd::prelude::*;

verus! {

/// The ways in which decoding a database or answering a query can fail.
#[derive(Debug, Clone, Copy, PartialEq, Eq, Structural)]
pub enum DbError {
    /// The bytes do not follow the file format: an unknown page type or
    /// serial type, a truncated varint or field, a malformed record header.
    Format,
    /// The bytes use a part of the format that this decoder does not handle,
    /// such as a payload that spills onto overflow pages.
    Unsupported,
    /// A table, index or column named by a query does not exist.
    NotFound,
}

} // verus!
