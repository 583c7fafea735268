use crate::engine::{records_view, separated};
use vstd::prelude::*;

verus! {

/// The error type of the `csv` crate.
#[verifier::external_type_specification]
#[verifier::external_body]
pub struct ExCsvError(csv::Error);

/// What the `csv` crate's reader frames a text into, with the given
/// separator, no header, records of any length and quoting switched off, so
/// that a quote character is a byte like any other: the records that it reads
/// before its first error, and whether an error ended the reading.
pub uninterp spec fn csv_records(input: Seq<u8>, delimiter: u8) -> (Seq<Seq<Seq<u8>>>, bool);

/// Frames `input` with `csv::Reader::records`, on a reader that
/// `csv::ReaderBuilder` made with this separator, without header, flexible
/// and without quoting. It hands back the records read before the first
/// error, and that error where there was one. The contract gives the outcome
/// its name, `csv_records`, and claims one thing more, which holds of a
/// reader without quoting: it ends a field at every separator, so no field
/// holds one.
#[verifier::external_body]
pub(crate) fn read_records(input: &[u8], delimiter: u8) -> (r: (
    Vec<Vec<Vec<u8>>>,
    Option<csv::Error>,
))
    ensures
        csv_records(input@, delimiter) == (records_view(&r.0), r.1 is Some),
        separated(records_view(&r.0), delimiter),
{
    let mut reader = csv::ReaderBuilder::new()
        .has_headers(false)
        .flexible(true)
        .quoting(false)
        .delimiter(delimiter)
        .from_reader(input);
    let mut records = Vec::new();
    for record in reader.records() {
        match record {
            Ok(fields) => records.push(fields.iter().map(|f| f.as_bytes().to_vec()).collect()),
            Err(e) => return (records, Some(e)),
        }
    }
    (records, None)
}

/// The message of a `csv::Error`, through its `to_string`. Nothing is claimed
/// of the text.
#[verifier::external_body]
pub(crate) fn describe(e: &csv::Error) -> (reason: String) {
    e.to_string()
}

} // verus!
