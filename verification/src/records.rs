//! Records of the two datasets: what a record of the routes dataset and a
//! record of the airports dataset hold, and when a record is rejected.

use crate::adjacency::{neighbors_in, RouteIndex};
use crate::airport::{Airport, AirportView};
use crate::number::{i32_of_text, is_real, is_real_text, parse_i32};
use vstd::prelude::*;
use vstd::string::*;

verus! {

/// Why the loading of a dataset stopped.
#[derive(Debug, Clone, Copy, PartialEq, Eq, Structural)]
pub enum LoadError {
    /// The dataset is no well-formed table: a record has another number of
    /// fields than the header, or is not UTF-8.
    Malformed,
    /// A record has too few fields to hold what is read from it.
    MissingField,
    /// A numeric field does not hold a number.
    BadNumber,
}

/// The marker that stands in a route's field for an airport without an
/// identifier.
pub open spec fn not_applicable() -> Seq<char> {
    seq!['N', 'A']
}

/// Why a record of the routes dataset is rejected, if it is. The identifier
/// of the source is the fourth field, that of the destination the sixth. A
/// record that marks its source as not applicable is not read any further.
pub open spec fn route_row_fault(row: Seq<Seq<char>>) -> Option<LoadError> {
    if row.len() <= 3 {
        Some(LoadError::MissingField)
    } else if row[3] == not_applicable() {
        None
    } else if row.len() <= 5 {
        Some(LoadError::MissingField)
    } else if row[5] == not_applicable() {
        None
    } else if i32_of_text(row[3]) is None || i32_of_text(row[5]) is None {
        Some(LoadError::BadNumber)
    } else {
        None
    }
}

/// The route that a record of the routes dataset holds, as the pair of the
/// identifiers of its source and of its destination. A record that is
/// rejected holds none, nor does one that marks its source or its
/// destination as not applicable.
pub open spec fn route_of_row(row: Seq<Seq<char>>) -> Option<(i32, i32)> {
    if route_row_fault(row) is Some || row[3] == not_applicable() || row[5] == not_applicable() {
        None
    } else {
        Some((i32_of_text(row[3])->0, i32_of_text(row[5])->0))
    }
}

/// Why a record of the airports dataset is rejected, if it is. The record
/// must have eight fields; the first must be an identifier, the seventh and
/// the eighth must be real numbers.
pub open spec fn airport_row_fault(row: Seq<Seq<char>>) -> Option<LoadError> {
    if row.len() < 8 {
        Some(LoadError::MissingField)
    } else if i32_of_text(row[0]) is None || !is_real_text(row[6]) || !is_real_text(row[7]) {
        Some(LoadError::BadNumber)
    } else {
        None
    }
}

/// The airport that a record of the airports dataset describes, where the
/// record is not rejected, with the neighbors that `routes` give it. The
/// fields are, in this order: identifier, name, city, country, one that is
/// not read, public code, latitude, longitude.
pub open spec fn airport_of_row(row: Seq<Seq<char>>, routes: Seq<(i32, i32)>) -> AirportView {
    let id = i32_of_text(row[0])->0;
    AirportView {
        id,
        name: row[1],
        latitude: row[6],
        longitude: row[7],
        city: row[2],
        country: row[3],
        connections: neighbors_in(routes, id),
    }
}

/// The public code in a record of the airports dataset.
pub open spec fn code_of_row(row: Seq<Seq<char>>) -> Seq<char> {
    row[5]
}

/// The number of records at the head of `rows` that `accepts` holds of: the
/// place of the first record that it rejects, or the number of all records.
pub open spec fn leading_rows(
    rows: Seq<Seq<Seq<char>>>,
    accepts: spec_fn(Seq<Seq<char>>) -> bool,
) -> nat
    decreases rows.len(),
{
    if rows.len() == 0 {
        0
    } else {
        let before = leading_rows(rows.drop_last(), accepts);
        if before == rows.len() - 1 && accepts(rows.last()) {
            before + 1
        } else {
            before
        }
    }
}

/// The number of records at the head of `rows` that are read as records of
/// the routes dataset.
pub open spec fn leading_route_rows(rows: Seq<Seq<Seq<char>>>) -> nat {
    leading_rows(rows, |row: Seq<Seq<char>>| route_row_fault(row) is None)
}

/// The number of records at the head of `rows` that are read as records of
/// the airports dataset.
pub open spec fn leading_airport_rows(rows: Seq<Seq<Seq<char>>>) -> nat {
    leading_rows(rows, |row: Seq<Seq<char>>| airport_row_fault(row) is None)
}

/// How the loading of the routes in `rows` ends: well, or with the fault of
/// the first record that is rejected.
pub open spec fn route_rows_verdict(rows: Seq<Seq<Seq<char>>>) -> Result<(), LoadError> {
    let n = leading_route_rows(rows);
    if n < rows.len() {
        match route_row_fault(rows[n as int]) {
            Some(e) => Err(e),
            None => Ok(()),
        }
    } else {
        Ok(())
    }
}

/// How the loading of the airports in `rows` ends: well, or with the fault of
/// the first record that is rejected.
pub open spec fn airport_rows_verdict(rows: Seq<Seq<Seq<char>>>) -> Result<(), LoadError> {
    let n = leading_airport_rows(rows);
    if n < rows.len() {
        match airport_row_fault(rows[n as int]) {
            Some(e) => Err(e),
            None => Ok(()),
        }
    } else {
        Ok(())
    }
}

/// How the loading of a dataset ends, given how the loading of its records
/// ended and whether the dataset was a well-formed table to its end. A fault
/// in a record comes before the fault in the table, which lies behind it.
pub open spec fn dataset_verdict(records: Result<(), LoadError>, complete: bool) -> Result<
    (),
    LoadError,
> {
    match records {
        Err(e) => Err(e),
        Ok(_) => if complete {
            Ok(())
        } else {
            Err(LoadError::Malformed)
        },
    }
}

/// The leading records are those before the first that is rejected: a number
/// `k` of records that are all accepted, and that either are all the records
/// or are followed by a rejected one, is the number of leading records.
pub proof fn lemma_leading_rows_end_at_first_rejected(
    rows: Seq<Seq<Seq<char>>>,
    accepts: spec_fn(Seq<Seq<char>>) -> bool,
    k: nat,
)
    requires
        k <= rows.len(),
        forall|j: int| 0 <= j < k ==> accepts(#[trigger] rows[j]),
        k < rows.len() ==> !accepts(rows[k as int]),
    ensures
        leading_rows(rows, accepts) == k,
    decreases rows.len(),
{
    if rows.len() > 0 {
        let before = rows.drop_last();
        if k == rows.len() {
            assert forall|j: int| 0 <= j < k - 1 implies accepts(#[trigger] before[j]) by {
                assert(before[j] == rows[j]);
            }
            lemma_leading_rows_end_at_first_rejected(before, accepts, (k - 1) as nat);
        } else {
            assert forall|j: int| 0 <= j < k implies accepts(#[trigger] before[j]) by {
                assert(before[j] == rows[j]);
            }
            if k < before.len() {
                assert(before[k as int] == rows[k as int]);
            }
            lemma_leading_rows_end_at_first_rejected(before, accepts, k);
        }
    }
}

/// All leading records are accepted, and the record that follows them, if
/// there is one, is rejected.
pub proof fn lemma_leading_rows_are_accepted(
    rows: Seq<Seq<Seq<char>>>,
    accepts: spec_fn(Seq<Seq<char>>) -> bool,
)
    ensures
        leading_rows(rows, accepts) <= rows.len(),
        forall|j: int| 0 <= j < leading_rows(rows, accepts) ==> accepts(#[trigger] rows[j]),
        leading_rows(rows, accepts) < rows.len() ==> !accepts(
            rows[leading_rows(rows, accepts) as int],
        ),
    decreases rows.len(),
{
    if rows.len() > 0 {
        let before = rows.drop_last();
        lemma_leading_rows_are_accepted(before, accepts);
        assert forall|j: int| 0 <= j < leading_rows(rows, accepts) implies accepts(
            #[trigger] rows[j],
        ) by {
            if j < before.len() {
                assert(before[j] == rows[j]);
            }
        }
        if leading_rows(before, accepts) < before.len() {
            assert(before[leading_rows(before, accepts) as int] == rows[leading_rows(
                before,
                accepts,
            ) as int]);
        }
    }
}

/// Tells whether a field holds the marker for an airport without an
/// identifier.
pub fn is_not_applicable(field: &str) -> (b: bool)
    ensures
        b == (field@ == not_applicable()),
{
    if !field.is_ascii() {
        assert(field@ != not_applicable()) by {
            let i = choose|i: int|
                0 <= i < field@.len() && !('\0' <= #[trigger] field@[i] <= '\u{7f}');
            if field@ == not_applicable() {
                assert(not_applicable()[i] == 'N' || not_applicable()[i] == 'A');
            }
        }
        return false;
    }
    let bytes = field.as_bytes();
    proof {
        is_ascii_spec_bytes(field);
    }
    let b = bytes.len() == 2 && bytes[0] == 78 && bytes[1] == 65;
    assert(b == (field@ =~= not_applicable())) by {
        if field@ == not_applicable() {
            assert(field@[0] == 'N' && field@[1] == 'A');
        }
    }
    b
}

/// Reads a record of the routes dataset: the route that it holds, nothing
/// where it marks an airport as not applicable, or its fault.
pub fn parse_route(row: &Vec<String>) -> (r: Result<Option<(i32, i32)>, LoadError>)
    ensures
        match r {
            Ok(route) => route_row_fault(row.deep_view()) is None && route == route_of_row(
                row.deep_view(),
            ),
            Err(e) => route_row_fault(row.deep_view()) == Some(e),
        },
{
    let ghost fields = row.deep_view();
    assert(forall|i: int| 0 <= i < row.len() ==> fields[i] == #[trigger] row[i]@);
    if row.len() <= 3 {
        return Err(LoadError::MissingField);
    }
    if is_not_applicable(row[3].as_str()) {
        return Ok(None);
    }
    if row.len() <= 5 {
        return Err(LoadError::MissingField);
    }
    if is_not_applicable(row[5].as_str()) {
        return Ok(None);
    }
    match parse_i32(row[3].as_str()) {
        Some(source) => match parse_i32(row[5].as_str()) {
            Some(destination) => Ok(Some((source, destination))),
            None => Err(LoadError::BadNumber),
        },
        None => Err(LoadError::BadNumber),
    }
}

/// Reads a record of the airports dataset, and gives the airport the
/// neighbors that the routes of `index` hold for it.
pub fn parse_airport(row: &Vec<String>, index: &RouteIndex) -> (r: Result<Airport, LoadError>)
    ensures
        match r {
            Ok(airport) => airport_row_fault(row.deep_view()) is None && airport@
                == airport_of_row(row.deep_view(), index@),
            Err(e) => airport_row_fault(row.deep_view()) == Some(e),
        },
{
    let ghost fields = row.deep_view();
    assert(forall|i: int| 0 <= i < row.len() ==> fields[i] == #[trigger] row[i]@);
    if row.len() < 8 {
        return Err(LoadError::MissingField);
    }
    let id: i32 = match parse_i32(row[0].as_str()) {
        Some(id) => id,
        None => {
            return Err(LoadError::BadNumber);
        },
    };
    if !is_real(row[6].as_str()) || !is_real(row[7].as_str()) {
        return Err(LoadError::BadNumber);
    }
    Ok(
        Airport::new(
            id,
            row[1].clone(),
            row[6].clone(),
            row[7].clone(),
            row[2].clone(),
            row[3].clone(),
            index.neighbors(id),
        ),
    )
}

} // verus!
