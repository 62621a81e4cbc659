//! Calendar work done by `chrono`: reading and writing timestamps, and the day
//! of the week; the times of the export as the library carries them, with
//! chrono's order and difference of date-times stated on them.

use chrono::{DateTime, Datelike, NaiveDateTime};
use vstd::prelude::*;

verus! {

/// A time of the export: whole seconds since 1970-01-01 00:00:00 on the naive
/// (zone-less) clock of the export, and whether it is the leap second written
/// `:60` that follows that second. Ordered by `secs`, then a leap second after
/// the plain second, as chrono orders its date-times.
#[derive(Clone, Copy, PartialEq, Eq, Structural, PartialOrd, Ord, Debug)]
pub struct Moment {
    pub secs: i64,
    pub leap: bool,
}

/// The nanoseconds chrono keeps past `secs`: 1_000_000_000 for a leap second.
pub open spec fn nanos_of(m: Moment) -> u32 {
    if m.leap {
        1_000_000_000
    } else {
        0
    }
}

pub open spec fn leap_secs(m: Moment) -> int {
    if m.leap {
        1
    } else {
        0
    }
}

/// `a` comes no later than `b`.
pub open spec fn not_after(a: Moment, b: Moment) -> bool {
    a.secs < b.secs || (a.secs == b.secs && (!a.leap || b.leap))
}

/// `a` comes strictly before `b`.
pub open spec fn before(a: Moment, b: Moment) -> bool {
    !not_after(b, a)
}

/// `t` comes after the plain whole second `x`.
pub open spec fn later_than_second(t: Moment, x: int) -> bool {
    t.secs > x || (t.secs == x && t.leap)
}

/// The plain second that chrono gives for `m - n seconds`, `n > 0`: a leap
/// second leaves its minute first.
pub open spec fn second_before(m: Moment, n: int) -> int {
    m.secs + leap_secs(m) - n
}

/// chrono's `a - b` (`signed_duration_since`) in whole seconds, for times
/// `(secs, leap)`. The date part is exact; within the day a leap second counts
/// only when the other time lies on the far side of it.
pub open spec fn elapsed_parts(a: int, a_leap: bool, b: int, b_leap: bool) -> int {
    let da = a % 86400;
    let db = b % 86400;
    let la: int = if a_leap { 1 } else { 0 };
    let lb: int = if b_leap { 1 } else { 0 };
    a - b + la - lb + if da > db && b_leap {
        1int
    } else if da < db && a_leap {
        -1int
    } else {
        0int
    }
}

pub open spec fn elapsed(a: Moment, b: Moment) -> int {
    elapsed_parts(a.secs as int, a.leap, b.secs as int, b.leap)
}

/// `a` comes no later than `b`.
pub fn is_not_after(a: Moment, b: Moment) -> (r: bool)
    ensures
        r == not_after(a, b),
{
    a.secs < b.secs || (a.secs == b.secs && (!a.leap || b.leap))
}

/// chrono's `a - b` in whole seconds, for times given as seconds and leap flag.
pub fn elapsed_between(a: i128, a_leap: bool, b: i128, b_leap: bool) -> (d: i128)
    requires
        -0x1_0000_0000_0000_0000 <= a <= 0x1_0000_0000_0000_0000,
        -0x1_0000_0000_0000_0000 <= b <= 0x1_0000_0000_0000_0000,
    ensures
        d == elapsed_parts(a as int, a_leap, b as int, b_leap),
        a - b - 2 <= d <= a - b + 2,
{
    let da: i128 = a.checked_rem_euclid(86400).unwrap();
    let db: i128 = b.checked_rem_euclid(86400).unwrap();
    let la: i128 = if a_leap { 1 } else { 0 };
    let lb: i128 = if b_leap { 1 } else { 0 };
    let adjust: i128 = if da > db && b_leap {
        1
    } else if da < db && a_leap {
        -1
    } else {
        0
    };
    a - b + la - lb + adjust
}

/// chrono's `a - b` in whole seconds.
pub fn elapsed_seconds(a: Moment, b: Moment) -> (d: i128)
    ensures
        d == elapsed(a, b),
{
    elapsed_between(a.secs as i128, a.leap, b.secs as i128, b.leap)
}

/// The seconds value and nanoseconds of `NaiveDateTime::parse_from_str(text,
/// "%Y-%m-%d %H:%M:%S")`, `None` when chrono rejects the text.
pub uninterp spec fn chrono_timestamp_of(text: Seq<char>) -> Option<(i64, u32)>;

/// The text chrono writes for a seconds value and nanoseconds with
/// `"%Y-%m-%d %H:%M:%S"`, `None` when chrono cannot represent them as a date
/// and time.
pub uninterp spec fn chrono_datetime_text(t: i64, nanos: u32) -> Option<Seq<char>>;

/// The text chrono writes for a seconds value with `"%H:%M"`, `None` when
/// chrono cannot represent the value as a date and time.
pub uninterp spec fn chrono_clock_text(t: i64) -> Option<Seq<char>>;

/// chrono's day of the week of a seconds value and nanoseconds, counted from
/// Monday = 0, `None` when chrono cannot represent them as a date and time.
pub uninterp spec fn chrono_weekday(t: i64, nanos: u32) -> Option<u32>;

/// Seconds and nanoseconds that chrono turns into a date and time: a day
/// within about 34,000 years of 1970 and, for a leap second, the 59th second
/// of a minute.
pub open spec fn representable(t: i64, nanos: u32) -> bool {
    &&& -0x100_0000_0000 <= t <= 0x100_0000_0000
    &&& (nanos == 0 || (nanos == 1_000_000_000 && t % 60 == 59))
}

/// A decimal digit.
pub open spec fn digit(d: int) -> char {
    ('0' as int + d) as char
}

/// `HH:MM` of the time of day of `t`.
pub open spec fn clock_text_of(t: int) -> Seq<char> {
    let day = t % 86400;
    let h = day / 3600;
    let m = (day % 3600) / 60;
    seq![digit(h / 10), digit(h % 10), ':', digit(m / 10), digit(m % 10)]
}

/// The day of the week of `t`, Monday = 0: 1970-01-01 was a Thursday.
pub open spec fn weekday_of_secs(t: int) -> int {
    (t / 86400 + 3) % 7
}

/// The text chrono writes for a time of the export.
pub open spec fn moment_text(m: Moment) -> Option<Seq<char>> {
    chrono_datetime_text(m.secs, nanos_of(m))
}

/// A time as chrono reads it from text: a leap second when it keeps
/// nanoseconds past the second.
pub open spec fn moment_of(parsed: Option<(i64, u32)>) -> Option<Moment> {
    match parsed {
        Some((secs, nanos)) => Some(Moment { secs, leap: nanos != 0 }),
        None => None,
    }
}

pub open spec fn option_text(s: Option<String>) -> Option<Seq<char>> {
    match s {
        Some(x) => Some(x@),
        None => None,
    }
}

/// Reads `text` with chrono's `NaiveDateTime::parse_from_str` and the format
/// `%Y-%m-%d %H:%M:%S`, and returns the seconds since the epoch
/// (`and_utc().timestamp()`) and the nanoseconds (`timestamp_subsec_nanos()`)
/// of the result. The contract names the result; it adds what chrono's
/// parser shows: the format has no fraction, so the nanoseconds are 0, or
/// 1_000_000_000 when the text gives second 60, which chrono reads as a leap
/// second after second 59. A parsed time lies in chrono's date range, so it
/// can be written out again. What chrono accepts is left unsaid.
#[verifier::external_body]
pub(crate) fn chrono_parse(text: &str) -> (t: Option<(i64, u32)>)
    ensures
        t == chrono_timestamp_of(text@),
        t matches Some((v, n)) ==> {
            &&& (n == 0 || (n == 1_000_000_000 && v % 60 == 59))
            &&& chrono_datetime_text(v, n) is Some
        },
{
    match NaiveDateTime::parse_from_str(text, "%Y-%m-%d %H:%M:%S") {
        Ok(moment) => Some((moment.and_utc().timestamp(), moment.and_utc().timestamp_subsec_nanos())),
        Err(_) => None,
    }
}

/// Writes the seconds value `t` and nanoseconds `nanos` with chrono
/// (`DateTime::from_timestamp(t, nanos)`, then `format("%Y-%m-%d %H:%M:%S")`,
/// which writes a leap second as `:60`). The contract names the text only.
#[verifier::external_body]
pub(crate) fn chrono_format_datetime(t: i64, nanos: u32) -> (s: Option<String>)
    ensures
        option_text(s) == chrono_datetime_text(t, nanos),
{
    match DateTime::from_timestamp(t, nanos) {
        Some(moment) => Some(moment.format("%Y-%m-%d %H:%M:%S").to_string()),
        None => None,
    }
}

/// Writes the time of day of the seconds value `t` with chrono
/// (`DateTime::from_timestamp(t, 0)`, then `format("%H:%M")`). The contract
/// names the text and states it: the two-digit hour and minute of `t`'s
/// second of the day; chrono represents every `t` within about 34,000 years
/// of 1970.
#[verifier::external_body]
pub(crate) fn chrono_format_clock(t: i64) -> (s: Option<String>)
    ensures
        option_text(s) == chrono_clock_text(t),
        s matches Some(text) ==> text@ == clock_text_of(t as int),
        representable(t, 0) ==> s is Some,
{
    match DateTime::from_timestamp(t, 0) {
        Some(moment) => Some(moment.format("%H:%M").to_string()),
        None => None,
    }
}

/// chrono's `weekday().num_days_from_monday()` of the seconds value `t` and
/// nanoseconds `nanos` (through `DateTime::from_timestamp(t, nanos)`). The
/// contract names the day and states it: days since 1970-01-01, a Thursday,
/// counted from Monday = 0; chrono represents every value within about 34,000
/// years of 1970.
#[verifier::external_body]
pub(crate) fn chrono_day_of_week(t: i64, nanos: u32) -> (w: Option<u32>)
    ensures
        w == chrono_weekday(t, nanos),
        w matches Some(d) ==> d == weekday_of_secs(t as int),
        representable(t, nanos) ==> w is Some,
{
    match DateTime::from_timestamp(t, nanos) {
        Some(moment) => Some(moment.weekday().num_days_from_monday()),
        None => None,
    }
}

} // verus!
