//! The database file header.
//!
//! The first hundred bytes of the file describe the database; the engine
//! reads only the page size, stored big-endian at offset sixteen.

use vstd::prelude::*;

use crate::error::DbError;
use crate::page_header::read_be_u16;
use crate::record::spec_be_uint;

verus! {

/// The decoded database header.
#[derive(Clone, Copy, Debug)]
pub struct DBHeader {
    pub page_size: usize,
}

/// The page size stored in the file's header.
pub open spec fn spec_page_size(s: Seq<u8>) -> nat {
    spec_be_uint(s, 16, 2)
}

impl DBHeader {
    /// Parses a database header from the start of the file's bytes.
    pub fn parse(stream: &[u8]) -> (r: Result<DBHeader, DbError>)
        ensures
            match r {
                Ok(h) => stream@.len() >= 100 && h.page_size == spec_page_size(stream@),
                Err(e) => e == DbError::Malformed && stream@.len() < 100,
            },
    {
        if stream.len() < 100 {
            return Err(DbError::Malformed);
        }
        let page_size = read_be_u16(stream, 16);
        Ok(DBHeader { page_size: page_size as usize })
    }
}

} // verus!
