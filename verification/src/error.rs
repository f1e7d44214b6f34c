//! The error kinds that decoding and querying can surface.

use vstd::prelude::*;

verus! {

/// Why an operation on a database file failed.
#[derive(Clone, Copy, Debug, PartialEq, Eq, Structural)]
pub enum DbError {
    /// The file bytes do not follow the format: a truncated varint or page,
    /// an invalid page-kind byte, an unknown serial type, a cell or payload
    /// that reaches outside its page, a missing right-most pointer, a rowid
    /// that is not a non-negative integer, or a B-tree deeper than the page
    /// count allows.
    Malformed,
    /// A schema-table row does not have the expected column shape, or its
    /// `sql` text is not a create statement the engine understands.
    InvalidSchema,
    /// A query string does not follow the supported grammar.
    SqlSyntax,
    /// The queried table is not in the schema.
    TableNotFound,
    /// A selected or filtered column is not a column of the table.
    ColumnNotFound,
    /// An index search reached a table page.
    NotAnIndex,
    /// A table scan reached an index page.
    NotATable,
}

} // verus!
