//! The time of day and the date of today, in UTC.

use crate::date;
use crate::date::{ymd_from_unix, Ymd};
use crate::text;
use crate::text::push_padded;
use vstd::arithmetic::div_mod;
use vstd::prelude::*;

verus! {

/// A reading of the system's clock.
#[verifier::external_type_specification]
#[verifier::external_body]
pub struct ExSystemTime(std::time::SystemTime);

/// Why a length of time could not be measured.
#[verifier::external_type_specification]
#[verifier::external_body]
pub struct ExSystemTimeError(std::time::SystemTimeError);

/// `SystemTime::now` of std. Nothing is claimed of what the clock shows.
pub assume_specification[ std::time::SystemTime::now ]() -> (r: std::time::SystemTime)
;

/// The whole seconds of a length of time.
pub uninterp spec fn seconds_in(d: std::time::Duration) -> u64;

/// The time that a reading of the clock lies behind the Unix epoch; nothing where it lies
/// before it.
pub uninterp spec fn behind_epoch(t: std::time::SystemTime) -> Option<std::time::Duration>;

/// `Duration::as_secs` of std: the whole seconds of a length of time.
pub assume_specification[ std::time::Duration::as_secs ](d: &std::time::Duration) -> (r: u64)
    ensures
        r == seconds_in(*d),
;

/// `SystemTime::duration_since` of std, from the Unix epoch on: how far the reading lies behind
/// it, or an error where it lies before it.
#[verifier::external_body]
fn since_epoch(t: &std::time::SystemTime) -> (r: Result<
    std::time::Duration,
    std::time::SystemTimeError,
>)
    ensures
        match r {
            Ok(d) => behind_epoch(*t) == Some(d),
            Err(_) => behind_epoch(*t) is None,
        },
{
    t.duration_since(std::time::UNIX_EPOCH)
}

/// The seconds since the Unix epoch at a reading of the clock; none where it lies before it.
pub open spec fn seconds_shown(t: std::time::SystemTime) -> Option<u64> {
    match behind_epoch(t) {
        Some(d) => Some(seconds_in(d)),
        None => None,
    }
}

/// The seconds since the Unix epoch at a reading of the clock; none where it lies before it.
fn unix_seconds(t: &std::time::SystemTime) -> (r: Option<u64>)
    ensures
        r == seconds_shown(*t),
{
    match since_epoch(t) {
        Ok(d) => Some(d.as_secs()),
        Err(_) => None,
    }
}

/// The seconds that a clock shows, 0 where it shows none.
pub open spec fn shown(clock: Option<u64>) -> u64 {
    match clock {
        Some(s) => s,
        None => 0,
    }
}

/// The date that a clock shows.
pub open spec fn date_shown(clock: Option<u64>) -> Ymd {
    date::civil((shown(clock) as i64) as int / 86_400)
}

/// The time of day, as `HH:MM:SS`, that a clock shows.
pub open spec fn time_shown(clock: Option<u64>) -> Seq<char> {
    let s = shown(clock) as int % 86_400;
    text::padded_text(s / 3600, 2) + seq![':'] + text::padded_text(s % 3600 / 60, 2) + seq![':']
        + text::padded_text(s % 60, 2)
}

/// The date at some seconds since the Unix epoch.
pub fn today_at(clock: Option<u64>) -> (r: Ymd)
    ensures
        r.is_valid(),
        r == date_shown(clock),
{
    let secs: u64 = match clock {
        Some(s) => s,
        None => 0,
    };
    ymd_from_unix(#[verifier::truncate] (secs as i64))
}

/// The time of day at some seconds since the Unix epoch.
pub fn hms_at(clock: Option<u64>) -> (r: String)
    ensures
        r@ == time_shown(clock),
{
    let secs: u64 = match clock {
        Some(s) => s,
        None => 0,
    };
    let s: i64 = (secs % 86_400) as i64;
    let mut r: String = String::new();
    push_padded(&mut r, s / 3600, 2);
    r.push(':');
    push_padded(&mut r, (s % 3600) / 60, 2);
    r.push(':');
    push_padded(&mut r, s % 60, 2);
    assert(r@ =~= time_shown(clock));
    r
}

/// Today's date by the system's clock: the date at what the clock shows.
pub fn today_local() -> (r: Ymd)
    ensures
        r.is_valid(),
        exists|t: std::time::SystemTime| r == date_shown(#[trigger] seconds_shown(t)),
{
    let t: std::time::SystemTime = std::time::SystemTime::now();
    today_at(unix_seconds(&t))
}

/// The time of day by the system's clock: that at what the clock shows.
pub fn now_hms() -> (r: String)
    ensures
        exists|t: std::time::SystemTime| r@ == time_shown(#[trigger] seconds_shown(t)),
{
    let t: std::time::SystemTime = std::time::SystemTime::now();
    hms_at(unix_seconds(&t))
}

/// The time of day is the hours, the minutes and the seconds since midnight, whatever the day;
/// the date is that of the days since 1 January 1970. A clock that shows nothing shows the
/// beginning of that day.
pub proof fn law_days_and_hours(day: int, h: int, m: int, s: int, clock: u64)
    requires
        0 <= day <= 100_000_000,
        0 <= h < 24,
        0 <= m < 60,
        0 <= s < 60,
        clock == 86_400 * day + 3600 * h + 60 * m + s,
    ensures
        time_shown(Some(clock)) == text::padded_text(h, 2) + seq![':'] + text::padded_text(m, 2)
            + seq![':'] + text::padded_text(s, 2),
        date_shown(Some(clock)).is_valid(),
        date_shown(Some(clock)).day_number() == day,
        time_shown(None) == time_shown(Some(0)),
        date_shown(None) == date_shown(Some(0)),
{
    date::law_civil_has_day_number(day as i64);
    lemma_parts_of_day(day, h, m, s);
}

proof fn lemma_parts_of_day(day: int, h: int, m: int, s: int)
    requires
        0 <= day,
        0 <= h < 24,
        0 <= m < 60,
        0 <= s < 60,
    ensures
        (86_400 * day + 3600 * h + 60 * m + s) / 86_400 == day,
        (86_400 * day + 3600 * h + 60 * m + s) % 86_400 == 3600 * h + 60 * m + s,
        (3600 * h + 60 * m + s) / 3600 == h,
        (3600 * h + 60 * m + s) % 3600 == 60 * m + s,
        (60 * m + s) / 60 == m,
        (3600 * h + 60 * m + s) % 60 == s,
{
    let rest = 3600 * h + 60 * m + s;
    div_mod::lemma_fundamental_div_mod_converse(86_400 * day + rest, 86_400, day, rest);
    div_mod::lemma_fundamental_div_mod_converse(rest, 3600, h, 60 * m + s);
    div_mod::lemma_fundamental_div_mod_converse(60 * m + s, 60, m, s);
    div_mod::lemma_fundamental_div_mod_converse(rest, 60, 60 * h + m, s);
}

}
