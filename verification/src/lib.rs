//! A minimal single-table persistent row store: rows with a numeric key and
//! two bounded text fields, kept durably in a fixed-page file image,
//! manipulated by insert and full-scan select.
//!
//! The crate is organised bottom-up: `row` (fixed-width row codec), `page`
//! and `pager` (the page cache over a file image), `node` (the B-tree leaf
//! cell layout), `cursor` and `table` (orchestration), `ast` (the resolved
//! command type) and `error` (the unified error taxonomy). All file I/O is
//! left to the embedding program, which hands the file's bytes in at open
//! and writes the returned image back at close.
use vstd::prelude::*;

pub mod ast;
pub mod cursor;
pub mod error;
pub mod node;
pub mod page;
pub mod pager;
pub mod row;
pub mod table;

verus! {

/// The size in bytes of one page, the unit of file I/O and caching.
pub const PAGE_SIZE: usize = 4096;

/// The number of bytes one encoded row occupies.
pub const ROW_SIZE: usize = 291;

/// The greatest number of pages the pager will ever hold.
pub const TABLE_MAX_PAGES: usize = 100;

/// How many whole rows fit in one page of the flat row-array layout:
/// `PAGE_SIZE / ROW_SIZE`, rounded down.
pub const ROWS_PER_PAGE: usize = 14;

/// The greatest number of rows a table can hold:
/// `ROWS_PER_PAGE * TABLE_MAX_PAGES`.
pub const TABLE_MAX_ROWS: usize = 1400;

} // verus!
