//! The unified failure taxonomy: every parse-time and execution-time failure
//! is one tagged value, told apart by its [`ErrorKind`] discriminant.
use vstd::prelude::*;

verus! {

/// What went wrong. One discriminant covers both the statement parser's
/// failures and the storage engine's.
#[derive(Clone, Copy, Debug, PartialEq, Eq, Structural)]
pub enum ErrorKind {
    /// Opening, reading or writing the backing file failed.
    IOError,
    /// A page or row index lay beyond the configured capacity.
    OutOfBounds,
    /// A row violated the fixed-width text contract and was rejected.
    EncodingError,
    /// Stored bytes were malformed and could not be read back as a row.
    DecodingError,
    /// The table already held its maximum number of rows.
    TableFull,
    /// A row with the same key is already present.
    DuplicateKey,
    /// A page that was never loaded was asked to be flushed.
    FlushEmptyPage,
    /// The statement keyword was not recognised.
    UnrecognizedCommand,
    /// An insert statement did not have the shape `insert <id> <name> <email>`.
    SyntaxError,
    /// The first insert argument was not a number.
    BadId,
}

/// A failure while turning input text into a statement.
#[derive(Clone, Copy, Debug, PartialEq, Eq, Structural)]
pub struct ParseError {
    pub kind: ErrorKind,
}

/// A failure while executing a statement against the table.
#[derive(Clone, Copy, Debug, PartialEq, Eq, Structural)]
pub struct ExecError {
    pub kind: ErrorKind,
}

} // verus!
