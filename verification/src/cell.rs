//! The four cell shapes stored on B-tree pages.

use vstd::prelude::*;

use crate::error::DbError;
use crate::record::{
    copy_range, parse_record, spec_parse_record, SpecValue, Value,
};
use crate::varint::{parse_varint, spec_varint};

verus! {

/// A table-leaf cell: a payload-size varint, a rowid varint, then the
/// record payload.
#[derive(Clone, Debug)]
pub struct TableLeafCell {
    pub rowid: u64,
    pub payload: Vec<u8>,
}

/// The rowid and payload of the table-leaf cell at `pos`, or `None` when a
/// varint or the payload reaches past the end.
pub open spec fn spec_table_leaf_cell(s: Seq<u8>, pos: int) -> Option<(u64, Seq<u8>)> {
    match spec_varint(s, pos) {
        None => None,
        Some((psize, p1)) => match spec_varint(s, p1) {
            None => None,
            Some((rowid, p2)) => if p2 + psize > s.len() {
                None
            } else {
                Some((rowid, s.subrange(p2, p2 + psize)))
            },
        },
    }
}

/// The record of a table-leaf cell: its payload parsed to `n` columns,
/// with a Null first column replaced by the cell's rowid.  This replacement
/// is how a table's `INTEGER PRIMARY KEY` column, stored as Null, reads
/// back as the rowid.
pub open spec fn spec_leaf_record(payload: Seq<u8>, rowid: u64, n: nat) -> Option<
    Seq<SpecValue>,
> {
    match spec_parse_record(payload, n) {
        None => None,
        Some(vals) => if vals.len() > 0 && vals[0] is Null {
            Some(vals.update(0, SpecValue::I64(rowid as i64)))
        } else {
            Some(vals)
        },
    }
}

/// Rowid aliasing: when the first column of a table-leaf record decodes as
/// Null, the emitted first column equals the cell's rowid.
pub proof fn lemma_rowid_aliasing(payload: Seq<u8>, rowid: u64, n: nat)
    requires
        n > 0,
        spec_parse_record(payload, n) is Some,
        spec_parse_record(payload, n).unwrap().len() > 0,
        spec_parse_record(payload, n).unwrap()[0] is Null,
    ensures
        spec_leaf_record(payload, rowid, n) is Some,
        spec_leaf_record(payload, rowid, n).unwrap()[0] == SpecValue::I64(rowid as i64),
{
}

impl TableLeafCell {
    /// Parses the table-leaf cell at `pos`.
    pub fn parse(stream: &[u8], pos: usize) -> (r: Result<TableLeafCell, DbError>)
        ensures
            match r {
                Ok(c) => spec_table_leaf_cell(stream@, pos as int) == Some((c.rowid, c.payload@)),
                Err(e) => e == DbError::Malformed && spec_table_leaf_cell(
                    stream@,
                    pos as int,
                ) is None,
            },
    {
        let slen: usize = stream.len();
        let (psize, used1) = match parse_varint(stream, pos) {
            None => {
                return Err(DbError::Malformed);
            },
            Some(p) => p,
        };
        let p1 = pos + used1;
        let (rowid, used2) = match parse_varint(stream, p1) {
            None => {
                return Err(DbError::Malformed);
            },
            Some(p) => p,
        };
        let p2 = p1 + used2;
        if psize > (slen - p2) as u64 {
            return Err(DbError::Malformed);
        }
        let payload = copy_range(stream, p2, psize as usize);
        proof {
            assert(payload@ =~= stream@.subrange(p2 as int, p2 + psize));
        }
        Ok(TableLeafCell { rowid, payload })
    }

    /// Parses this cell's record with `column_count` columns, aliasing a
    /// Null first column to the rowid.
    pub fn get_record(&self, column_count: usize) -> (r: Result<Vec<Value>, DbError>)
        ensures
            match r {
                Ok(vals) => spec_leaf_record(self.payload@, self.rowid, column_count as nat)
                    == Some(vals.deep_view()),
                Err(e) => e == DbError::Malformed && spec_leaf_record(
                    self.payload@,
                    self.rowid,
                    column_count as nat,
                ) is None,
            },
    {
        let mut vals = parse_record(self.payload.as_slice(), column_count)?;
        if vals.len() > 0 {
            let null_first = match &vals[0] {
                Value::Null => true,
                _ => false,
            };
            if null_first {
                let ghost before = vals.deep_view();
                vals.set(0, Value::I64(self.rowid as i64));
                proof {
                    assert(vals.deep_view() =~= before.update(0, SpecValue::I64(
                        self.rowid as i64,
                    )));
                }
            }
        }
        Ok(vals)
    }
}

/// A table-interior cell: a four-byte left-child page number and a key
/// varint bounding the rowids of that subtree.
#[derive(Clone, Copy, Debug)]
pub struct TableInteriorCell {
    pub left_child_page: u32,
    pub key: u64,
}

/// The table-interior cell at `pos`.
pub open spec fn spec_table_interior_cell(s: Seq<u8>, pos: int) -> Option<TableInteriorCell> {
    if pos < 0 || pos + 4 > s.len() {
        None
    } else {
        match spec_varint(s, pos + 4) {
            None => None,
            Some((key, _)) => Some(
                TableInteriorCell {
                    left_child_page: crate::record::spec_be_uint(s, pos, 4) as u32,
                    key,
                },
            ),
        }
    }
}

impl TableInteriorCell {
    /// Parses the table-interior cell at `pos`.
    pub fn parse(stream: &[u8], pos: usize) -> (r: Result<TableInteriorCell, DbError>)
        ensures
            match r {
                Ok(c) => spec_table_interior_cell(stream@, pos as int) == Some(c),
                Err(e) => e == DbError::Malformed && spec_table_interior_cell(
                    stream@,
                    pos as int,
                ) is None,
            },
    {
        let slen: usize = stream.len();
        if pos >= slen || slen - pos < 4 {
            return Err(DbError::Malformed);
        }
        let left_child_page = crate::page_header::read_be_u32(stream, pos);
        let (key, _) = match parse_varint(stream, pos + 4) {
            None => {
                return Err(DbError::Malformed);
            },
            Some(p) => p,
        };
        Ok(TableInteriorCell { left_child_page, key })
    }
}

/// An index-leaf cell: a payload-size varint and the record payload.
#[derive(Clone, Debug)]
pub struct IndexLeafCell {
    pub payload: Vec<u8>,
}

/// The payload of the index-leaf cell at `pos`.
pub open spec fn spec_index_leaf_cell(s: Seq<u8>, pos: int) -> Option<Seq<u8>> {
    match spec_varint(s, pos) {
        None => None,
        Some((psize, p1)) => if p1 + psize > s.len() {
            None
        } else {
            Some(s.subrange(p1, p1 + psize))
        },
    }
}

impl IndexLeafCell {
    /// Parses the index-leaf cell at `pos`.
    pub fn parse(stream: &[u8], pos: usize) -> (r: Result<IndexLeafCell, DbError>)
        ensures
            match r {
                Ok(c) => spec_index_leaf_cell(stream@, pos as int) == Some(c.payload@),
                Err(e) => e == DbError::Malformed && spec_index_leaf_cell(
                    stream@,
                    pos as int,
                ) is None,
            },
    {
        let slen: usize = stream.len();
        let (psize, used) = match parse_varint(stream, pos) {
            None => {
                return Err(DbError::Malformed);
            },
            Some(p) => p,
        };
        let p1 = pos + used;
        if psize > (slen - p1) as u64 {
            return Err(DbError::Malformed);
        }
        let payload = copy_range(stream, p1, psize as usize);
        proof {
            assert(payload@ =~= stream@.subrange(p1 as int, p1 + psize));
        }
        Ok(IndexLeafCell { payload })
    }

    /// Parses this cell's record with `column_count` columns.
    pub fn get_record(&self, column_count: usize) -> (r: Result<Vec<Value>, DbError>)
        ensures
            match r {
                Ok(vals) => spec_parse_record(self.payload@, column_count as nat) == Some(
                    vals.deep_view(),
                ),
                Err(e) => e == DbError::Malformed && spec_parse_record(
                    self.payload@,
                    column_count as nat,
                ) is None,
            },
    {
        parse_record(self.payload.as_slice(), column_count)
    }
}

/// An index-interior cell: a four-byte left-child page number, a
/// payload-size varint, and the record payload.
#[derive(Clone, Debug)]
pub struct IndexInteriorCell {
    pub left_child_page: u32,
    pub payload: Vec<u8>,
}

/// The left child and payload of the index-interior cell at `pos`.
pub open spec fn spec_index_interior_cell(s: Seq<u8>, pos: int) -> Option<(u32, Seq<u8>)> {
    if pos < 0 || pos + 4 > s.len() {
        None
    } else {
        match spec_varint(s, pos + 4) {
            None => None,
            Some((psize, p1)) => if p1 + psize > s.len() {
                None
            } else {
                Some((crate::record::spec_be_uint(s, pos, 4) as u32, s.subrange(p1, p1 + psize)))
            },
        }
    }
}

impl IndexInteriorCell {
    /// Parses the index-interior cell at `pos`.
    pub fn parse(stream: &[u8], pos: usize) -> (r: Result<IndexInteriorCell, DbError>)
        ensures
            match r {
                Ok(c) => spec_index_interior_cell(stream@, pos as int) == Some(
                    (c.left_child_page, c.payload@),
                ),
                Err(e) => e == DbError::Malformed && spec_index_interior_cell(
                    stream@,
                    pos as int,
                ) is None,
            },
    {
        let slen: usize = stream.len();
        if pos >= slen || slen - pos < 4 {
            return Err(DbError::Malformed);
        }
        let left_child_page = crate::page_header::read_be_u32(stream, pos);
        let (psize, used) = match parse_varint(stream, pos + 4) {
            None => {
                return Err(DbError::Malformed);
            },
            Some(p) => p,
        };
        let p1 = pos + 4 + used;
        if psize > (slen - p1) as u64 {
            return Err(DbError::Malformed);
        }
        let payload = copy_range(stream, p1, psize as usize);
        proof {
            assert(payload@ =~= stream@.subrange(p1 as int, p1 + psize));
        }
        Ok(IndexInteriorCell { left_child_page, payload })
    }

    /// Parses this cell's record with `column_count` columns.
    pub fn get_record(&self, column_count: usize) -> (r: Result<Vec<Value>, DbError>)
        ensures
            match r {
                Ok(vals) => spec_parse_record(self.payload@, column_count as nat) == Some(
                    vals.deep_view(),
                ),
                Err(e) => e == DbError::Malformed && spec_parse_record(
                    self.payload@,
                    column_count as nat,
                ) is None,
            },
    {
        parse_record(self.payload.as_slice(), column_count)
    }
}

} // verus!
