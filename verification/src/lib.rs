//! A read-only query engine for files in the SQLite database file format.
//!
//! The engine decodes the paged byte layout (database header, page headers,
//! varints, records, cells), walks table and index B-trees, and executes a
//! restricted `SELECT` over the decoded rows.  All decoding and query logic
//! operates on in-memory bytes; opening files and printing results is left
//! to callers.

pub mod cell;
pub mod db;
pub mod db_header;
pub mod error;
pub mod numeric;
pub mod page;
pub mod page_header;
pub mod record;
pub mod schema;
pub mod sql;
pub mod varint;
