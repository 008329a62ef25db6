use vstd::prelude::*;

use chrono::Datelike;

verus! {

/// A calendar day, held as its day number in the proleptic Gregorian
/// calendar (the count that chrono's `NaiveDate` reports from the start of
/// the common era). With dates as plain integers, walking the calendar and
/// comparing days is ordinary arithmetic that the valuation contracts can
/// speak about directly.
#[derive(Clone, Copy, PartialEq, Eq, Structural, Debug)]
pub struct Date {
    pub day: i64,
}

/// The day number that reading `s` as a `YYYY-MM-DD` calendar date gives,
/// when `s` is such a date; `None` when it is not.
pub uninterp spec fn date_num_of(s: Seq<char>) -> Option<int>;

/// Relies on chrono's `NaiveDate::parse_from_str` with the `%Y-%m-%d`
/// format, and on `Datelike::num_days_from_ce`, which reports the parsed
/// date's day number as an `i32`.
#[verifier::external_body]
pub(crate) fn parse_date(s: &str) -> (r: Option<Date>)
    ensures
        match r {
            Some(d) => date_num_of(s@) == Some(d.day as int) && i32::MIN as i64 <= d.day
                <= i32::MAX as i64,
            None => date_num_of(s@) is None,
        },
{
    match chrono::NaiveDate::parse_from_str(s, "%Y-%m-%d") {
        Ok(d) => Some(Date { day: d.num_days_from_ce() as i64 }),
        Err(_) => None,
    }
}

} // verus!
