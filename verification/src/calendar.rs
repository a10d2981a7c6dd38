//! Instants, and the calendar arithmetic that only chrono knows how to do.
//!
//! An instant is held as whole nanoseconds since the Unix epoch in an `i128`,
//! which covers every instant chrono can represent. Comparing and subtracting
//! instants is ordinary integer arithmetic and is proved here; turning an
//! instant into a calendar date, or a date back into an instant, is chrono's
//! work and goes through the wrappers below.
use vstd::prelude::*;

use chrono::{DateTime, NaiveDateTime};

use crate::text::{digit, digit_value};

verus! {

/// Nanoseconds in one second.
pub const NANOS_PER_SECOND: i128 = 1_000_000_000;

/// Nanoseconds in one day.
pub const NANOS_PER_DAY: i128 = 86_400_000_000_000;

/// The first second chrono can represent: the start of the year -262143, UTC.
pub const MIN_SECONDS: i64 = -8_334_601_228_800;

/// The last second chrono can represent: the end of the year 262142, UTC.
pub const MAX_SECONDS: i64 = 8_210_266_876_799;

/// The earliest instant there is, in nanoseconds.
pub open spec fn min_instant() -> int {
    MIN_SECONDS * 1_000_000_000
}

/// Whether `at` is an instant chrono can represent.
pub open spec fn instant(at: int) -> bool {
    min_instant() <= at < (MAX_SECONDS + 1) * 1_000_000_000
}

/// Whether nanoseconds name an instant chrono can represent.
pub fn is_instant(at: i128) -> (b: bool)
    ensures
        b == instant(at as int),
{
    (MIN_SECONDS as i128) * NANOS_PER_SECOND <= at && at < ((MAX_SECONDS as i128) + 1)
        * NANOS_PER_SECOND
}

pub fn earliest() -> (at: i128)
    ensures
        at == min_instant(),
{
    (MIN_SECONDS as i128) * NANOS_PER_SECOND
}

/// Whether `stamp` is spelled as a compact stamp: eight digits, `T`, six
/// digits.
pub open spec fn stamp_shaped(stamp: Seq<char>) -> bool {
    &&& stamp.len() == 15
    &&& stamp[8] == 'T'
    &&& forall|i: int| 0 <= i < 15 && i != 8 ==> digit(#[trigger] stamp[i])
}

/// The number the two digits at `i` spell.
pub open spec fn two_digits(stamp: Seq<char>, i: int) -> int {
    digit_value(stamp[i]) * 10 + digit_value(stamp[i + 1])
}

/// The year the first four digits spell.
pub open spec fn stamp_year(stamp: Seq<char>) -> int {
    two_digits(stamp, 0) * 100 + two_digits(stamp, 2)
}

/// Whether a year is a leap year of the Gregorian calendar.
pub open spec fn leap_year(year: int) -> bool {
    year % 4 == 0 && (year % 100 != 0 || year % 400 == 0)
}

/// How many days a month of a year has.
pub open spec fn days_in_month(year: int, month: int) -> int {
    if month == 2 {
        if leap_year(year) {
            29
        } else {
            28
        }
    } else if month == 4 || month == 6 || month == 9 || month == 11 {
        30
    } else {
        31
    }
}

/// Whether a shaped stamp names a real date and time: a month of the year, a
/// day of that month, an hour of the day, a minute of the hour, and a second
/// of the minute, the leap second 60 included.
pub open spec fn calendar_stamp(stamp: Seq<char>) -> bool {
    let month = two_digits(stamp, 4);
    &&& 1 <= month <= 12
    &&& 1 <= two_digits(stamp, 6) <= days_in_month(stamp_year(stamp), month)
    &&& two_digits(stamp, 9) <= 23
    &&& two_digits(stamp, 11) <= 59
    &&& two_digits(stamp, 13) <= 60
}

/// Days from 1970-01-01 to a date of the Gregorian calendar.
pub open spec fn days_from_civil(year: int, month: int, day: int) -> int {
    let y = if month <= 2 {
        year - 1
    } else {
        year
    };
    let era = y / 400;
    let yoe = y - era * 400;
    let doy = (153 * (if month > 2 {
        month - 3
    } else {
        month + 9
    }) + 2) / 5 + day - 1;
    let doe = yoe * 365 + yoe / 4 - yoe / 100 + doy;
    era * 146097 + doe - 719468
}

/// The days before March 1 of a March-based year, counted from an epoch of
/// the formula's own.
pub open spec fn year_days(y: int) -> int {
    let era = y / 400;
    let yoe = y - era * 400;
    era * 146097 + yoe * 365 + yoe / 4 - yoe / 100
}

/// The days from March 1 to the first of a month, in a March-based year.
pub open spec fn month_days(month: int) -> int {
    (153 * (if month > 2 {
        month - 3
    } else {
        month + 9
    }) + 2) / 5
}

proof fn days_from_civil_parts(year: int, month: int, day: int)
    ensures
        days_from_civil(year, month, day) == year_days(if month <= 2 {
            year - 1
        } else {
            year
        }) + month_days(month) + day - 1 - 719468,
{
}

/// A March-based year is 365 days long, and one more when the February it
/// ends with is a leap one.
proof fn year_days_step(y: int)
    ensures
        year_days(y) - year_days(y - 1) == 365 + if leap_year(y) {
            1int
        } else {
            0int
        },
{
    let era = y / 400;
    let yoe = y - era * 400;
    assert(0 <= yoe < 400);
    assert(y % 4 == yoe % 4 && y % 100 == yoe % 100 && y % 400 == yoe % 400);
    if yoe == 0 {
        assert((y - 1) / 400 == era - 1);
    } else {
        assert((y - 1) / 400 == era);
        assert(yoe / 4 - (yoe - 1) / 4 == if yoe % 4 == 0 {
            1int
        } else {
            0int
        });
        assert(yoe / 100 - (yoe - 1) / 100 == if yoe % 100 == 0 {
            1int
        } else {
            0int
        });
    }
}

proof fn month_step(y: int, m: int)
    requires
        1 <= m <= 11,
    ensures
        days_from_civil(y, m + 1, 1) == days_from_civil(y, m, 1) + days_in_month(y, m),
{
    days_from_civil_parts(y, m, 1);
    days_from_civil_parts(y, m + 1, 1);
    if m == 2 {
        year_days_step(y);
    }
}

proof fn day_step(y: int, m: int, d: int)
    ensures
        days_from_civil(y, m, d) == days_from_civil(y, m, 1) + d - 1,
{
    days_from_civil_parts(y, m, d);
    days_from_civil_parts(y, m, 1);
}

proof fn month_firsts_grow(y: int, m1: int, m2: int)
    requires
        1 <= m1 < m2 <= 12,
    ensures
        days_from_civil(y, m1, 1) + days_in_month(y, m1) <= days_from_civil(y, m2, 1),
    decreases m2 - m1,
{
    month_step(y, m1);
    if m1 + 1 < m2 {
        month_firsts_grow(y, m1 + 1, m2);
    }
}

proof fn year_firsts_grow(y1: int, y2: int)
    requires
        y1 < y2,
    ensures
        days_from_civil(y1, 12, 31) < days_from_civil(y2, 1, 1),
    decreases y2 - y1,
{
    days_from_civil_parts(y1, 12, 31);
    days_from_civil_parts(y1 + 1, 1, 1);
    if y1 + 1 < y2 {
        year_firsts_grow(y1 + 1, y2);
        days_from_civil_parts(y1 + 1, 12, 31);
        days_from_civil_parts(y1 + 1, 1, 1);
        year_days_step(y1 + 1);
    }
}

/// Whether a year, month and day name a date of the Gregorian calendar.
pub open spec fn calendar_date(year: int, month: int, day: int) -> bool {
    1 <= month <= 12 && 1 <= day <= days_in_month(year, month)
}

/// Later dates are further from the epoch: the day count grows with the
/// year, then the month, then the day.
pub proof fn dates_in_order(y1: int, m1: int, d1: int, y2: int, m2: int, d2: int)
    requires
        calendar_date(y1, m1, d1),
        calendar_date(y2, m2, d2),
        y1 < y2 || (y1 == y2 && (m1 < m2 || (m1 == m2 && d1 < d2))),
    ensures
        days_from_civil(y1, m1, d1) < days_from_civil(y2, m2, d2),
{
    day_step(y1, m1, d1);
    day_step(y2, m2, d2);
    if y1 < y2 {
        if m1 < 12 {
            month_firsts_grow(y1, m1, 12);
        }
        day_step(y1, 12, 31);
        year_firsts_grow(y1, y2);
        if m2 > 1 {
            month_firsts_grow(y2, 1, m2);
        }
    } else if m1 < m2 {
        month_firsts_grow(y1, m1, m2);
    }
}

/// The UTC second since the epoch a real shaped stamp names; a leap second
/// counts as the second before it.
pub open spec fn civil_seconds(stamp: Seq<char>) -> int {
    let second = two_digits(stamp, 13);
    days_from_civil(stamp_year(stamp), two_digits(stamp, 4), two_digits(stamp, 6)) * 86400
        + two_digits(stamp, 9) * 3600 + two_digits(stamp, 11) * 60 + (if second == 60 {
        59
    } else {
        second
    })
}

/// Whether chrono reads a stamp that is not shaped as a compact stamp as a
/// real date and time anyway (a signed or longer year, say).
pub uninterp spec fn loose_stamp(stamp: Seq<char>) -> bool;

/// The second chrono reads such a stamp as.
pub uninterp spec fn loose_stamp_seconds(stamp: Seq<char>) -> int;

/// Whether chrono reads `stamp` as a real date and time in the compact
/// `%Y%m%dT%H%M%S` spelling.
pub open spec fn real_stamp(stamp: Seq<char>) -> bool {
    if stamp_shaped(stamp) {
        calendar_stamp(stamp)
    } else {
        loose_stamp(stamp)
    }
}

/// The UTC second since the epoch that chrono reads a real compact stamp as.
pub open spec fn stamp_seconds(stamp: Seq<char>) -> int {
    if stamp_shaped(stamp) {
        civil_seconds(stamp)
    } else {
        loose_stamp_seconds(stamp)
    }
}

/// How chrono spells a whole UTC second in the compact `%Y%m%dT%H%M%S` form.
pub uninterp spec fn stamp_text(seconds: int) -> Seq<char>;

/// Wraps `NaiveDateTime::parse_from_str` with the compact stamp format and
/// reports whether it succeeded. For a shaped stamp the contract states
/// chrono's rule: four digits of year, then month, day, hour, minute and
/// second of two digits each, checked against the Gregorian calendar, with a
/// second of 60 accepted as a leap second. For any other text the answer is
/// only named.
#[verifier::external_body]
pub(crate) fn parses_as_stamp(stamp: &str) -> (b: bool)
    ensures
        b == real_stamp(stamp@),
        stamp_shaped(stamp@) ==> b == calendar_stamp(stamp@),
        !stamp_shaped(stamp@) ==> b == loose_stamp(stamp@),
{
    NaiveDateTime::parse_from_str(stamp, "%Y%m%dT%H%M%S").is_ok()
}

/// Wraps `NaiveDateTime::parse_from_str` followed by `and_utc().timestamp()`:
/// the UTC second a real stamp names. Only called on a stamp the parser has
/// already accepted, so the parse cannot fail. For a shaped stamp the second
/// is stated, a leap second reading as the second before it; for any other
/// text it is only named.
#[verifier::external_body]
pub(crate) fn seconds_of_stamp(stamp: &str) -> (s: i64)
    requires
        real_stamp(stamp@),
    ensures
        s == stamp_seconds(stamp@),
        stamp_shaped(stamp@) ==> s == civil_seconds(stamp@),
        !stamp_shaped(stamp@) ==> s == loose_stamp_seconds(stamp@),
{
    match NaiveDateTime::parse_from_str(stamp, "%Y%m%dT%H%M%S") {
        Ok(at) => at.and_utc().timestamp(),
        Err(_) => 0,
    }
}

/// Whether a second falls in the years 0 to 9999, the ones chrono writes
/// with a year of exactly four digits.
pub open spec fn four_digit_year(seconds: int) -> bool {
    -62_167_219_200 <= seconds < 253_402_300_800
}

/// Wraps `DateTime::from_timestamp` and `format` with the compact stamp
/// format: how chrono spells a second in the representable range, which the
/// name [`stamp_text`] stands for. In the years 0 to 9999 the contract states
/// the spelling: chrono zero-pads the year to four digits and every other
/// field to two, so the text is a shaped stamp of a real date and time, its
/// second (a whole second, never a leap one) at most 59, naming exactly
/// `seconds`. Outside those years chrono writes the year with its sign
/// first, `+` or `-`; the rest of such a text is only named.
#[verifier::external_body]
pub(crate) fn stamp_of_seconds(seconds: i64) -> (text: String)
    requires
        MIN_SECONDS <= seconds <= MAX_SECONDS,
    ensures
        text@ == stamp_text(seconds as int),
        four_digit_year(seconds as int) ==> stamp_shaped(text@) && calendar_stamp(text@)
            && two_digits(text@, 13) <= 59 && civil_seconds(text@) == seconds,
        !four_digit_year(seconds as int) ==> text@.len() > 0 && (text@[0] == '+' || text@[0] == '-'),
{
    match DateTime::from_timestamp(seconds, 0) {
        Some(at) => format!("{}", at.format("%Y%m%dT%H%M%S")),
        None => String::new(),
    }
}

/// The whole second an instant falls in, rounding towards the past.
pub open spec fn second_of(at: int) -> int {
    if at >= 0 {
        at / 1_000_000_000
    } else {
        -((-at - 1) / 1_000_000_000) - 1
    }
}

/// How far into its second an instant is, in nanoseconds.
pub open spec fn subsecond_of(at: int) -> int {
    at - second_of(at) * 1_000_000_000
}

/// Splits an instant into its second and the nanoseconds past it.
pub fn split_instant(at: i128) -> (parts: (i64, u32))
    requires
        min_instant() <= at < (MAX_SECONDS + 1) * 1_000_000_000,
    ensures
        parts.0 == second_of(at as int),
        parts.1 == subsecond_of(at as int),
        0 <= parts.1 < 1_000_000_000,
        MIN_SECONDS <= parts.0 <= MAX_SECONDS,
{
    let seconds: i128 = if at >= 0 {
        at / NANOS_PER_SECOND
    } else {
        -((-at - 1) / NANOS_PER_SECOND) - 1
    };
    let sub: i128 = at - seconds * NANOS_PER_SECOND;
    assert(0 <= sub < 1_000_000_000) by (nonlinear_arith)
        requires
            seconds == second_of(at as int),
            sub == at - seconds * 1_000_000_000,
    ;
    assert(MIN_SECONDS <= seconds <= MAX_SECONDS) by (nonlinear_arith)
        requires
            seconds == second_of(at as int),
            min_instant() <= at < (MAX_SECONDS + 1) * 1_000_000_000,
    ;
    (seconds as i64, sub as u32)
}

/// The most whole days a chrono `TimeDelta` holds: `TimeDelta::days` panics
/// beyond `i64::MAX` milliseconds either way.
pub const MAX_DAYS: i64 = 106_751_991_167;

/// `at` minus `days` whole days, or the earliest instant there is when that
/// would fall outside the representable range (before its start, or, for a
/// negative count, past its end).
pub open spec fn days_before_spec(at: int, days: int) -> int {
    if instant(at - days * 86_400_000_000_000) {
        at - days * 86_400_000_000_000
    } else {
        min_instant()
    }
}

/// `at` minus some days, falling back to the earliest instant rather than
/// failing when the result is not representable.
pub fn days_before(at: i128, days: i64) -> (before: i128)
    requires
        instant(at as int),
        -MAX_DAYS <= days <= MAX_DAYS,
    ensures
        before == days_before_spec(at as int, days as int),
        instant(before as int),
        days >= 0 ==> min_instant() <= before <= at,
{
    assert(-MAX_DAYS * 86_400_000_000_000 <= days * 86_400_000_000_000 <= MAX_DAYS
        * 86_400_000_000_000) by (nonlinear_arith)
        requires
            -MAX_DAYS <= days <= MAX_DAYS,
    ;
    let span: i128 = (days as i128) * NANOS_PER_DAY;
    let floor = earliest();
    let end: i128 = ((MAX_SECONDS as i128) + 1) * NANOS_PER_SECOND;
    let moved: i128 = at - span;
    if floor <= moved && moved < end {
        moved
    } else {
        floor
    }
}

} // verus!
