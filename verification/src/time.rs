//! Wall-clock readings and timestamp rendering, through chrono.

use vstd::prelude::*;

verus! {

/// The text chrono renders for an epoch second, as `%Y-%m-%d %H:%M:%S` in
/// UTC: a function of the timestamp alone.
pub uninterp spec fn timestamp_text(ts: int) -> Seq<char>;

/// The last epoch second of year 9999, comfortably inside chrono's range.
pub const MAX_DATETIME_TS: i64 = 253402300799;

/// Relies on chrono::Utc::now: the current epoch second. Nothing can be
/// promised of a clock reading; note that chrono panics on a system clock
/// that reads before the Unix epoch, a machine state no precondition can
/// exclude.
#[verifier::external_body]
pub(crate) fn now_timestamp() -> i64 {
    chrono::Utc::now().timestamp()
}

/// Relies on chrono::DateTime::from_timestamp and chrono's
/// `%Y-%m-%d %H:%M:%S` formatting: the text depends on the timestamp alone,
/// `None` comes only for timestamps outside chrono's date range, and every
/// timestamp from the epoch up to the end of year 9999 is inside it.
#[verifier::external_body]
fn utc_datetime_text(ts: i64) -> (r: Option<String>)
    ensures
        r matches Some(s) ==> s@ == timestamp_text(ts as int),
        0 <= ts <= MAX_DATETIME_TS ==> r is Some,
{
    chrono::DateTime::from_timestamp(ts, 0).map(|dt| dt.format("%Y-%m-%d %H:%M:%S").to_string())
}

/// The text shown for a record's timestamp: chrono's rendering, or
/// `Unknown` for a timestamp outside chrono's date range.
pub fn timestamp_label(ts: i64) -> (r: String)
    ensures
        0 <= ts <= MAX_DATETIME_TS ==> r@ == timestamp_text(ts as int),
        r@ == timestamp_text(ts as int) || r@ == "Unknown"@,
{
    match utc_datetime_text(ts) {
        Some(s) => s,
        None => "Unknown".to_owned(),
    }
}

} // verus!
