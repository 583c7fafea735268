use crate::error::{RunError, Failure};
use crate::number::{parse_number, parse_value};
use crate::record::{copy_bytes, drop_column, fields_view, join, join_fields, without_column};
use vstd::prelude::*;

verus! {

/// The record has a field at the 1-based column.
pub open spec fn has_column(fields: Seq<Seq<u8>>, column: nat) -> bool {
    1 <= column <= fields.len()
}

/// The key under which a record is grouped: its fields but the one at the
/// column, in their order, joined by the separator.
pub open spec fn group_key(fields: Seq<Seq<u8>>, column: nat, d: u8) -> Seq<u8> {
    join(without_column(fields, column), d)
}

/// What a record yields: its value and its key, or the reason why it has
/// none.
pub open spec fn extraction(fields: Seq<Seq<u8>>, column: nat, d: u8, line: nat) -> Result<
    (u64, Seq<u8>),
    Failure,
> {
    if !has_column(fields, column) {
        Err(Failure::MissingColumn { column, line })
    } else {
        match parse_value(fields[column - 1]) {
            None => Err(Failure::InvalidValue { text: fields[column - 1], line }),
            Some(value) => Ok((value, group_key(fields, column, d))),
        }
    }
}

/// What the result of `extract` stands for.
pub open spec fn extracted_view(r: Result<(u64, Vec<u8>), RunError>) -> Result<
    (u64, Seq<u8>),
    Failure,
> {
    match r {
        Ok(pair) => Ok((pair.0, pair.1@)),
        Err(e) => Err(e@),
    }
}

/// Parts a record into the value at the column and the key made of the other
/// fields. `line` is the record's 1-based number, which an error carries.
pub fn extract(record: &Vec<Vec<u8>>, column: usize, delimiter: u8, line: usize) -> (r: Result<
    (u64, Vec<u8>),
    RunError,
>)
    ensures
        extracted_view(r) == extraction(
            fields_view(record),
            column as nat,
            delimiter,
            line as nat,
        ),
{
    if column == 0 || column > record.len() {
        return Err(RunError::MissingColumn { column, line });
    }
    let field = &record[column - 1];
    match parse_number(field.as_slice()) {
        None => Err(RunError::InvalidValue { text: copy_bytes(field.as_slice()), line }),
        Some(value) => {
            let rest = drop_column(record, column);
            Ok((value, join_fields(&rest, delimiter)))
        },
    }
}

} // verus!
