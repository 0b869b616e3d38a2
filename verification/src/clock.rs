//! Calendar-day arithmetic and the time facts that only chrono can supply.
//!
//! A calendar day is counted in whole days since the Unix epoch
//! (1970-01-01, a Thursday); instants are seconds since the Unix epoch, UTC.
//! Conversions that depend on the machine's time zone, and timestamp parsing,
//! go through chrono behind trusted wrappers.

use vstd::arithmetic::div_mod::lemma_add_mod_noop;
use vstd::arithmetic::div_mod::lemma_div_is_ordered;
use vstd::prelude::*;

use chrono::TimeZone;
use chrono::Timelike;

verus! {

/// The UTC calendar day containing an instant.
pub open spec fn utc_day_of(t: int) -> int {
    t / 86400
}

/// Day-of-week index of a calendar day: 0 = Sunday, ..., 6 = Saturday.
/// Day 0 (1970-01-01) was a Thursday, index 4.
pub open spec fn weekday_index(day: int) -> int {
    (day + 4) % 7
}

/// The UTC calendar day containing an instant.
pub fn utc_day(t: i64) -> (d: i64)
    ensures
        d == utc_day_of(t as int),
{
    proof {
        lemma_div_is_ordered(t as int, i64::MAX as int, 86400);
        lemma_div_is_ordered(i64::MIN as int, t as int, 86400);
        assert(i64::MAX as int / 86400 <= i64::MAX);
        assert(i64::MIN <= i64::MIN as int / 86400);
    }
    t.checked_div_euclid(86400).unwrap()
}

/// Day-of-week index of a calendar day.
pub fn weekday_of_day(day: i64) -> (w: i64)
    ensures
        w == weekday_index(day as int),
        0 <= w < 7,
{
    let r = day.checked_rem_euclid(7).unwrap();
    proof {
        lemma_add_mod_noop(day as int, 4, 7);
    }
    (r + 4) % 7
}

/// What chrono's `DateTime<Utc>` parser yields for a text, as whole seconds
/// since the Unix epoch; `None` where the text is not a timestamp.
pub uninterp spec fn instant_of(s: Seq<char>) -> Option<i64>;

/// Relies on chrono: `DateTime::<Utc>::from_str` parses an RFC 3339
/// timestamp, and `timestamp()` is its whole-second instant. The result
/// depends on the text alone.
#[verifier::external_body]
pub(crate) fn parse_instant(s: &str) -> (r: Option<i64>)
    ensures
        r == instant_of(s@),
{
    s.parse::<chrono::DateTime<chrono::Utc>>().ok().map(|t| t.timestamp())
}

/// What chrono's `NaiveTime` parser yields for a text in `%H:%M` form.
pub uninterp spec fn hhmm_of(s: Seq<char>) -> Option<(u32, u32)>;

/// Relies on chrono: `NaiveTime::parse_from_str` with format `%H:%M`; its
/// `hour()` is 0..=23 and its `minute()` is 0..=59. The result depends on the
/// text alone.
#[verifier::external_body]
pub(crate) fn parse_hhmm(s: &str) -> (r: Option<(u32, u32)>)
    ensures
        r == hhmm_of(s@),
        r matches Some(hm) ==> hm.0 < 24 && hm.1 < 60,
{
    chrono::NaiveTime::parse_from_str(s, "%H:%M").ok().map(|t| (t.hour(), t.minute()))
}

/// Relies on chrono: `Local.from_local_datetime(..).single()` resolves a
/// local civil time to a UTC instant, `None` when the wall time is absent or
/// ambiguous (daylight-saving transitions) or out of range. Every offset
/// chrono yields is under one day in magnitude, so the instant lies within a
/// day of the same civil time read as UTC. The result depends on the
/// machine's time zone.
#[verifier::external_body]
pub(crate) fn local_civil_to_utc(day: i64, hour: u32, minute: u32) -> (r: Option<i64>)
    requires
        hour < 24,
        minute < 60,
    ensures
        r matches Some(t) ==> day * 86400 + hour * 3600 + minute * 60 - 86400 < t < day * 86400
            + hour * 3600 + minute * 60 + 86400,
{
    let date = chrono::DateTime::from_timestamp(day.checked_mul(86400)?, 0)?.date_naive();
    let ndt = date.and_hms_opt(hour, minute, 0)?;
    let dt = chrono::Local.from_local_datetime(&ndt).single()?;
    Some(dt.timestamp())
}

/// Relies on chrono: the local calendar date of an instant. Every offset
/// chrono yields is under one day in magnitude, so the local day is within
/// one day of the UTC day. The result depends on the machine's time zone.
#[verifier::external_body]
pub(crate) fn local_day_of(t: i64) -> (r: Option<i64>)
    ensures
        r matches Some(d) ==> utc_day_of(t as int) - 1 <= d <= utc_day_of(t as int) + 1,
{
    let dt = chrono::DateTime::from_timestamp(t, 0)?;
    let local_date = dt.with_timezone(&chrono::Local).date_naive();
    let epoch = chrono::NaiveDate::from_ymd_opt(1970, 1, 1)?;
    Some(local_date.signed_duration_since(epoch).num_days())
}

} // verus!
