//! Time stamps of lease records, as seconds since the Unix epoch (UTC).

use vstd::prelude::*;

verus! {

/// The instant that `text` writes in the layout `YYYY/MM/DD HH:MM:SS`, read as
/// UTC, in seconds since the Unix epoch; `None` where the text does not fit.
pub uninterp spec fn utc_seconds_of(text: Seq<char>) -> Option<i64>;

/// Relies on chrono's `NaiveDateTime::parse_from_str` with the layout
/// `%Y/%m/%d %H:%M:%S` and on `NaiveDateTime::and_utc` with `DateTime::timestamp`:
/// a result that depends on the text alone.
#[verifier::external_body]
pub(crate) fn parse_utc_seconds(text: &str) -> (r: Option<i64>)
    ensures
        r == utc_seconds_of(text@),
{
    match chrono::NaiveDateTime::parse_from_str(text, "%Y/%m/%d %H:%M:%S") {
        Ok(d) => Some(d.and_utc().timestamp()),
        Err(_) => None,
    }
}

} // verus!
