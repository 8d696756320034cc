//! The resolved command handed in by the statement parser: a tagged sum, one
//! variant per statement the table can execute.
use vstd::prelude::*;
use crate::row::Row;

verus! {

/// A parsed statement ready to execute.
pub struct Stmt {
    pub stmt_type: StmtType,
}

/// What the statement does: insert one row, or read every row back.
pub enum StmtType {
    StmtInsert(Row),
    StmtSelect,
}

} // verus!
