use vstd::prelude::*;

use crate::error::DbError;

verus! {

/// The big-endian number in the two bytes of `s` at `i`.
pub open spec fn be16(s: Seq<u8>, i: int) -> nat {
    s[i] as nat * 256 + s[i + 1] as nat
}

/// The big-endian number in the four bytes of `s` at `i`.
pub open spec fn be32(s: Seq<u8>, i: int) -> nat {
    ((s[i] as nat * 256 + s[i + 1] as nat) * 256 + s[i + 2] as nat) * 256 + s[i + 3] as nat
}

/// Reads the big-endian `u16` at `pos`.
pub fn read_u16_be(buf: &[u8], pos: usize) -> (r: u16)
    requires
        pos + 2 <= buf@.len(),
    ensures
        r as nat == be16(buf@, pos as int),
{
    (buf[pos] as u16) * 256 + buf[pos + 1] as u16
}

/// Reads the big-endian `u32` at `pos`.
pub fn read_u32_be(buf: &[u8], pos: usize) -> (r: u32)
    requires
        pos + 4 <= buf@.len(),
    ensures
        r as nat == be32(buf@, pos as int),
{
    let a = buf[pos] as u32;
    let b = buf[pos + 1] as u32;
    let c = buf[pos + 2] as u32;
    let d = buf[pos + 3] as u32;
    assert(((a * 256 + b) * 256 + c) * 256 + d <= u32::MAX) by (nonlinear_arith)
        requires
            a < 256,
            b < 256,
            c < 256,
            d < 256,
    ;
    ((a * 256 + b) * 256 + c) * 256 + d
}

/// The four kinds of B-tree page.
#[derive(Debug, Clone, Copy, PartialEq, Eq, Structural)]
pub enum BTreePage {
    InteriorIndex,
    InteriorTable,
    LeafIndex,
    LeafTable,
}

impl BTreePage {
    pub open spec fn spec_is_interior(self) -> bool {
        self is InteriorIndex || self is InteriorTable
    }

    /// Whether pages of this kind route to child pages.
    #[verifier::when_used_as_spec(spec_is_interior)]
    pub fn is_interior(self) -> (r: bool)
        ensures
            r == self.spec_is_interior(),
    {
        match self {
            BTreePage::InteriorIndex | BTreePage::InteriorTable => true,
            _ => false,
        }
    }
}

/// The page kind that a page's first byte denotes.
pub open spec fn page_type_of(tag: u8) -> Option<BTreePage> {
    if tag == 2 {
        Some(BTreePage::InteriorIndex)
    } else if tag == 5 {
        Some(BTreePage::InteriorTable)
    } else if tag == 10 {
        Some(BTreePage::LeafIndex)
    } else if tag == 13 {
        Some(BTreePage::LeafTable)
    } else {
        None
    }
}

/// Length of the header of a page of kind `t`.
pub open spec fn header_len(t: BTreePage) -> nat {
    if t.spec_is_interior() {
        12
    } else {
        8
    }
}

/// The header at the start of every B-tree page.
#[derive(Debug, Clone, Copy)]
pub struct PageHeader {
    pub page_type: BTreePage,
    pub first_free_block_start: u16,
    pub number_of_cells: u16,
    pub start_of_content_area: u16,
    pub fragmented_free_bytes: u8,
    /// The child to the right of every cell; interior pages only.
    pub right_most_pointer: Option<u32>,
}

/// The page header at the start of `s` with its length, or the error that
/// reading it gives.
pub open spec fn page_header_spec(s: Seq<u8>) -> Result<(nat, PageHeader), DbError> {
    if s.len() == 0 {
        Err(DbError::Format)
    } else {
        match page_type_of(s[0]) {
            None => Err(DbError::Format),
            Some(t) => {
                let n = header_len(t);
                if s.len() < n {
                    Err(DbError::Format)
                } else {
                    Ok(
                        (
                            n,
                            PageHeader {
                                page_type: t,
                                first_free_block_start: be16(s, 1) as u16,
                                number_of_cells: be16(s, 3) as u16,
                                start_of_content_area: be16(s, 5) as u16,
                                fragmented_free_bytes: s[7],
                                right_most_pointer: if t.spec_is_interior() {
                                    Some(be32(s, 8) as u32)
                                } else {
                                    None
                                },
                            },
                        ),
                    )
                }
            },
        }
    }
}

impl PageHeader {
    /// Parses the page header at the start of `stream` and returns it with
    /// its length: 12 bytes for interior pages, 8 for leaf pages.
    pub fn parse(stream: &[u8]) -> (r: Result<(usize, PageHeader), DbError>)
        ensures
            match page_header_spec(stream@) {
                Ok((n, h)) => r == Ok::<(usize, PageHeader), DbError>((n as usize, h)),
                Err(e) => r == Err::<(usize, PageHeader), DbError>(e),
            },
    {
        if stream.len() == 0 {
            return Err(DbError::Format);
        }
        let page_type = match stream[0] {
            2 => BTreePage::InteriorIndex,
            5 => BTreePage::InteriorTable,
            10 => BTreePage::LeafIndex,
            13 => BTreePage::LeafTable,
            _ => {
                return Err(DbError::Format);
            },
        };
        let len: usize = if page_type.is_interior() {
            12
        } else {
            8
        };
        if stream.len() < len {
            return Err(DbError::Format);
        }
        let first_free_block_start = read_u16_be(stream, 1);
        let number_of_cells = read_u16_be(stream, 3);
        let start_of_content_area = read_u16_be(stream, 5);
        let fragmented_free_bytes = stream[7];
        let right_most_pointer = if page_type.is_interior() {
            Some(read_u32_be(stream, 8))
        } else {
            None
        };
        Ok(
            (
                len,
                PageHeader {
                    page_type,
                    first_free_block_start,
                    number_of_cells,
                    start_of_content_area,
                    fragmented_free_bytes,
                    right_most_pointer,
                },
            ),
        )
    }
}

} // verus!
