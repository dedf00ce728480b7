//! Datasets as tables of text fields.

use vstd::prelude::*;

verus! {

/// What the `csv` crate reads from a dataset with its default settings: the
/// records that follow the header line, up to the first one that it rejects,
/// each as the list of its fields; and whether it came to the end of the data
/// without rejecting a record.
pub uninterp spec fn csv_records(data: Seq<u8>) -> (Seq<Seq<Seq<char>>>, bool);

/// Splits a dataset into records with `csv::Reader::from_reader` and
/// `Reader::records`, and copies the fields of each record out of its
/// `StringRecord`.
///
/// The reader takes the first line as a header and hands it out with no
/// record. It rejects a record whose number of fields differs from that of
/// the first line, or which is not UTF-8. Reading stops there: the second
/// part of the result is `true` only when no record was rejected. The
/// contract claims that both parts depend on the bytes alone.
#[verifier::external_body]
pub(crate) fn read_records(data: &[u8]) -> (out: (Vec<Vec<String>>, bool))
    ensures
        out.0.deep_view() == csv_records(data@).0,
        out.1 == csv_records(data@).1,
{
    let mut reader = csv::Reader::from_reader(data);
    let mut rows: Vec<Vec<String>> = Vec::new();
    for record in reader.records() {
        match record {
            Ok(fields) => rows.push(fields.iter().map(String::from).collect()),
            Err(_) => return (rows, false),
        }
    }
    (rows, true)
}

} // verus!
