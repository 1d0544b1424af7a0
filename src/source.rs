//! Splitting a comma-separated source into records, done by the csv crate.

use vstd::prelude::*;

verus! {

/// The records that the csv crate reads from `src`, each a sequence of fields,
/// up to the first record it cannot read; the flag is `true` when it read the
/// whole source.
pub uninterp spec fn csv_records_of(src: Seq<u8>) -> (Seq<Seq<Seq<char>>>, bool);

/// Relies on csv::ReaderBuilder::from_reader and Reader::records, the first
/// record not taken as a header and records of any length accepted: the records
/// read from `src` in order, stopping at the first error (a record that is not
/// UTF-8), and whether none came.
#[verifier::external_body]
pub(crate) fn read_records(src: &[u8]) -> (r: (Vec<Vec<String>>, bool))
    ensures
        (r.0.deep_view(), r.1) == csv_records_of(src@),
{
    let mut reader = csv::ReaderBuilder::new().has_headers(false).flexible(true).from_reader(src);
    let mut out: Vec<Vec<String>> = Vec::new();
    for record in reader.records() {
        match record {
            Ok(record) => out.push(record.iter().map(|f| f.to_string()).collect()),
            Err(_) => return (out, false),
        }
    }
    (out, true)
}

} // verus!
