//! Calendar facts about UNIX timestamps, as computed by `chrono` in UTC.
use vstd::prelude::*;
use chrono::{Datelike, TimeZone, Utc};

verus! {

/// The calendar year and month, and the ISO week's year and number, of the UTC instant `ts`
/// seconds after the epoch, or `None` when `chrono` cannot represent it.
pub uninterp spec fn utc_date_parts(ts: i64) -> Option<(i32, u32, i32, u32)>;

/// `chrono`'s `%Y-%m-%d` rendering of the UTC instant `ts`, or `None` when it cannot
/// represent it.
pub uninterp spec fn utc_day_text(ts: i64) -> Option<Seq<char>>;

/// `chrono`'s `%b %d, %Y` rendering of the UTC instant `ts`, or `None` when it cannot
/// represent it.
pub uninterp spec fn utc_short_text(ts: i64) -> Option<Seq<char>>;

/// `Utc.timestamp_opt(ts, 0).single()` read through `Datelike::year`, `Datelike::month`,
/// `iso_week().year()` and `iso_week().week()`. Trusted: the result is `utc_date_parts(ts)`;
/// the month lies in 1..=12 and the week in 1..=53, as `chrono` documents.
#[verifier::external_body]
pub(crate) fn date_parts(ts: i64) -> (r: Option<(i32, u32, i32, u32)>)
    ensures
        r == utc_date_parts(ts),
        r matches Some(p) ==> 1 <= p.1 <= 12 && 1 <= p.3 <= 53,
{
    match Utc.timestamp_opt(ts, 0).single() {
        Some(dt) => Some((dt.year(), dt.month(), dt.iso_week().year(), dt.iso_week().week())),
        None => None,
    }
}

/// `Utc.timestamp_opt(ts, 0).single()` formatted with `%Y-%m-%d`. Trusted: the result is
/// `utc_day_text(ts)`, and it is present exactly when `date_parts` gives parts (both go
/// through the same `timestamp_opt`).
#[verifier::external_body]
pub(crate) fn format_day(ts: i64) -> (r: Option<String>)
    ensures
        match r {
            Some(s) => utc_day_text(ts) == Some(s@),
            None => utc_day_text(ts) is None,
        },
        r is Some <==> utc_date_parts(ts) is Some,
{
    match Utc.timestamp_opt(ts, 0).single() {
        Some(dt) => Some(dt.format("%Y-%m-%d").to_string()),
        None => None,
    }
}

/// `Utc.timestamp_opt(ts, 0).single()` formatted with `%b %d, %Y`. Trusted: the result is
/// `utc_short_text(ts)`, and it is present exactly when `date_parts` gives parts.
#[verifier::external_body]
pub(crate) fn format_short_day(ts: i64) -> (r: Option<String>)
    ensures
        match r {
            Some(s) => utc_short_text(ts) == Some(s@),
            None => utc_short_text(ts) is None,
        },
        r is Some <==> utc_date_parts(ts) is Some,
{
    match Utc.timestamp_opt(ts, 0).single() {
        Some(dt) => Some(dt.format("%b %d, %Y").to_string()),
        None => None,
    }
}

} // verus!
