//! The B-tree page header.
//!
//! Every page opens with an eight-byte header — twelve bytes on interior
//! pages, whose extra four bytes hold the right-most child page number.
//! On page one the header starts after the hundred-byte database header.

use vstd::prelude::*;

use crate::error::DbError;
use crate::record::spec_be_uint;

verus! {

/// The four B-tree page kinds.
#[derive(Clone, Copy, Debug, PartialEq, Eq, Structural)]
pub enum BTreePage {
    InteriorIndex,
    InteriorTable,
    LeafIndex,
    LeafTable,
}

/// The decoded page header.
#[derive(Clone, Copy, Debug)]
pub struct PageHeader {
    pub page_type: BTreePage,
    pub first_free_block_start: u16,
    pub number_of_cells: u16,
    pub start_of_content_area: u16,
    pub fragmented_free_bytes: u8,
    pub right_most_pointer: Option<u32>,
}

/// The page kind encoded by the header's first byte.
pub open spec fn spec_page_kind(b: u8) -> Option<BTreePage> {
    if b == 2 {
        Some(BTreePage::InteriorIndex)
    } else if b == 5 {
        Some(BTreePage::InteriorTable)
    } else if b == 10 {
        Some(BTreePage::LeafIndex)
    } else if b == 13 {
        Some(BTreePage::LeafTable)
    } else {
        None
    }
}

/// The page header stored at `pos`, or `None` when the kind byte is
/// invalid or the bytes run out.
pub open spec fn spec_page_header(s: Seq<u8>, pos: int) -> Option<PageHeader> {
    if pos < 0 || pos + 8 > s.len() {
        None
    } else {
        match spec_page_kind(s[pos]) {
            None => None,
            Some(kind) => {
                let interior = kind == BTreePage::InteriorIndex || kind == BTreePage::InteriorTable;
                if interior && pos + 12 > s.len() {
                    None
                } else {
                    Some(
                        PageHeader {
                            page_type: kind,
                            first_free_block_start: spec_be_uint(s, pos + 1, 2) as u16,
                            number_of_cells: spec_be_uint(s, pos + 3, 2) as u16,
                            start_of_content_area: spec_be_uint(s, pos + 5, 2) as u16,
                            fragmented_free_bytes: s[pos + 7],
                            right_most_pointer: if interior {
                                Some(spec_be_uint(s, pos + 8, 4) as u32)
                            } else {
                                None
                            },
                        },
                    )
                }
            },
        }
    }
}

/// How many bytes the header occupies.
pub open spec fn spec_header_size(h: PageHeader) -> int {
    if h.right_most_pointer is Some {
        12
    } else {
        8
    }
}

impl PageHeader {
    /// Parses the page header stored at `pos`.
    pub fn parse(stream: &[u8], pos: usize) -> (r: Result<PageHeader, DbError>)
        ensures
            match r {
                Ok(h) => spec_page_header(stream@, pos as int) == Some(h),
                Err(e) => e == DbError::Malformed && spec_page_header(stream@, pos as int) is None,
            },
    {
        let slen: usize = stream.len();
        if pos >= slen || slen - pos < 8 {
            return Err(DbError::Malformed);
        }
        let kind = match stream[pos] {
            2 => BTreePage::InteriorIndex,
            5 => BTreePage::InteriorTable,
            10 => BTreePage::LeafIndex,
            13 => BTreePage::LeafTable,
            _ => {
                return Err(DbError::Malformed);
            },
        };
        let interior = match kind {
            BTreePage::InteriorIndex | BTreePage::InteriorTable => true,
            _ => false,
        };
        if interior && slen - pos < 12 {
            return Err(DbError::Malformed);
        }
        let first_free_block_start = read_be_u16(stream, pos + 1);
        let number_of_cells = read_be_u16(stream, pos + 3);
        let start_of_content_area = read_be_u16(stream, pos + 5);
        let fragmented_free_bytes = stream[pos + 7];
        let right_most_pointer = if interior {
            Some(read_be_u32(stream, pos + 8))
        } else {
            None
        };
        Ok(
            PageHeader {
                page_type: kind,
                first_free_block_start,
                number_of_cells,
                start_of_content_area,
                fragmented_free_bytes,
                right_most_pointer,
            },
        )
    }

    /// The number of bytes this header occupies.
    pub fn size(&self) -> (r: usize)
        ensures
            r == spec_header_size(*self),
    {
        match self.right_most_pointer {
            Some(_) => 12,
            None => 8,
        }
    }
}

/// Reads the big-endian two-byte integer at `pos`.
pub fn read_be_u16(s: &[u8], pos: usize) -> (r: u16)
    requires
        pos + 2 <= s@.len(),
    ensures
        r == spec_be_uint(s@, pos as int, 2),
{
    proof {
        reveal_with_fuel(spec_be_uint, 3);
    }
    (s[pos] as u16) * 256 + (s[pos + 1] as u16)
}

/// Reads the big-endian four-byte integer at `pos`.
pub fn read_be_u32(s: &[u8], pos: usize) -> (r: u32)
    requires
        pos + 4 <= s@.len(),
    ensures
        r == spec_be_uint(s@, pos as int, 4),
{
    proof {
        reveal_with_fuel(spec_be_uint, 5);
    }
    let hi = (s[pos] as u32) * 256 + (s[pos + 1] as u32);
    let lo = (s[pos + 2] as u32) * 256 + (s[pos + 3] as u32);
    hi * 0x1_0000 + lo
}

} // verus!
