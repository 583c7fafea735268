use vstd::prelude::*;

verus! {

/// Why a run was abandoned.
#[derive(Debug, Clone, PartialEq, Eq)]
pub enum RunError {
    /// The separator token is neither the tab escape nor one ASCII character.
    InvalidDelimiter { token: String },
    /// The column argument is not a number.
    InvalidColumnIndex { token: String },
    /// The record on this line has no field at the column.
    MissingColumn { column: usize, line: usize },
    /// The field at the column is not a number.
    InvalidValue { text: Vec<u8>, line: usize },
    /// The sum of a group, up to this line, no longer fits in 64 bits.
    Overflow { line: usize },
    /// The input could not be framed into records.
    Unreadable { reason: String },
}

/// An error as contracts speak of it.
pub enum Failure {
    InvalidDelimiter { token: Seq<char> },
    InvalidColumnIndex { token: Seq<char> },
    MissingColumn { column: nat, line: nat },
    InvalidValue { text: Seq<u8>, line: nat },
    Overflow { line: nat },
    Unreadable,
}

impl View for RunError {
    type V = Failure;

    open spec fn view(&self) -> Failure {
        match *self {
            RunError::InvalidDelimiter { token } => Failure::InvalidDelimiter { token: token@ },
            RunError::InvalidColumnIndex { token } => Failure::InvalidColumnIndex { token: token@ },
            RunError::MissingColumn { column, line } => Failure::MissingColumn {
                column: column as nat,
                line: line as nat,
            },
            RunError::InvalidValue { text, line } => Failure::InvalidValue {
                text: text@,
                line: line as nat,
            },
            RunError::Overflow { line } => Failure::Overflow { line: line as nat },
            RunError::Unreadable { reason } => Failure::Unreadable,
        }
    }
}

} // verus!
