//! Checks on the start date of the reporting period.
use vstd::prelude::*;

verus! {

/// Earliest year a reporting period may start in.
pub const FIRST_YEAR: i32 = 2019;

/// Why the fields of a start date were refused.
#[derive(Debug, Clone, Copy, PartialEq, Eq, Structural)]
pub enum DateInputError {
    /// The date does not have exactly a year, a month and a day.
    FieldCount,
    /// The year lies before `FIRST_YEAR`.
    YearTooEarly,
}

/// Accepts the numeric fields of a start date, year first, when there are
/// exactly three of them and the year is not before `FIRST_YEAR`.
pub fn check_date_fields(fields: &[i32]) -> (r: Result<(i32, i32, i32), DateInputError>)
    ensures
        match r {
            Ok((y, m, d)) => {
                &&& fields@.len() == 3
                &&& fields@[0] >= FIRST_YEAR
                &&& y == fields@[0] && m == fields@[1] && d == fields@[2]
            },
            Err(e) => {
                ||| fields@.len() != 3 && e == DateInputError::FieldCount
                ||| fields@.len() == 3 && fields@[0] < FIRST_YEAR && e == DateInputError::YearTooEarly
            },
        },
{
    if fields.len() != 3 {
        Err(DateInputError::FieldCount)
    } else if fields[0] < FIRST_YEAR {
        Err(DateInputError::YearTooEarly)
    } else {
        Ok((fields[0], fields[1], fields[2]))
    }
}

} // verus!
