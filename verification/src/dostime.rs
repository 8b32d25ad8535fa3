//! DOS timestamps: a date and a time of day packed into 32 bits.
//!
//! From the low bit up: seconds divided by two (5 bits), minutes (6), hours
//! (5), day of the month (5), month (4) and years since 1980 (7).

use crate::text::{padded_digits, push_padded};
use vstd::prelude::*;
use vstd::string::StringExecFns;

verus! {

/// The seconds of a timestamp: always even.
pub open spec fn dos_second(dostime: u32) -> int {
    ((dostime & 0x1f) << 1) as int
}

/// The minutes of a timestamp.
pub open spec fn dos_minute(dostime: u32) -> int {
    ((dostime >> 5) & 0x3f) as int
}

/// The hours of a timestamp.
pub open spec fn dos_hour(dostime: u32) -> int {
    ((dostime >> 11) & 0x1f) as int
}

/// The day of the month of a timestamp.
pub open spec fn dos_day(dostime: u32) -> int {
    ((dostime >> 16) & 0x1f) as int
}

/// The month of a timestamp.
pub open spec fn dos_month(dostime: u32) -> int {
    ((dostime >> 21) & 0x0f) as int
}

/// The year of a timestamp, from 1980 to 2107.
pub open spec fn dos_year(dostime: u32) -> int {
    ((dostime >> 25) & 0x7f) + 1980
}

/// A timestamp is valid when it names a month from 1 to 12 and a day from 1
/// to 31. The day is not checked against the month.
pub open spec fn dos_datetime_valid(dostime: u32) -> bool {
    1 <= dos_month(dostime) <= 12 && 1 <= dos_day(dostime) <= 31
}

/// Leap years of the Gregorian calendar.
pub open spec fn is_leap_year(year: int) -> bool {
    year % 4 == 0 && (year % 100 != 0 || year % 400 == 0)
}

/// The number of leap years among the years 1 to `year - 1`.
pub open spec fn leap_years_before(year: int) -> int {
    (year - 1) / 4 - (year - 1) / 100 + (year - 1) / 400
}

/// Days from 1970-01-01 to the first day of `year`.
pub open spec fn days_before_year(year: int) -> int {
    365 * (year - 1970) + leap_years_before(year) - leap_years_before(1970)
}

/// Days from the first day of a year to the first day of its month `month`.
pub open spec fn days_before_month(month: int, leap: bool) -> int {
    let common = if month <= 1 {
        0int
    } else if month == 2 {
        31
    } else if month == 3 {
        59
    } else if month == 4 {
        90
    } else if month == 5 {
        120
    } else if month == 6 {
        151
    } else if month == 7 {
        181
    } else if month == 8 {
        212
    } else if month == 9 {
        243
    } else if month == 10 {
        273
    } else if month == 11 {
        304
    } else {
        334
    };
    if leap && month > 2 {
        common + 1
    } else {
        common
    }
}

/// Days from 1970-01-01 to the given date. A day past the end of its month
/// counts on into the next.
pub open spec fn days_from_civil(year: int, month: int, day: int) -> int {
    days_before_year(year) + days_before_month(month, is_leap_year(year)) + day - 1
}

/// Seconds from 1970-01-01 00:00:00 to the moment a valid timestamp names,
/// read as UTC.
pub open spec fn dos_unix_seconds(dostime: u32) -> int {
    days_from_civil(dos_year(dostime), dos_month(dostime), dos_day(dostime)) * 86400 + dos_hour(
        dostime,
    ) * 3600 + dos_minute(dostime) * 60 + dos_second(dostime)
}

/// The ranges of the fields, as their bit widths give them.
proof fn lemma_field_ranges(dostime: u32)
    ensures
        0 <= dos_second(dostime) <= 62,
        0 <= dos_minute(dostime) <= 63,
        0 <= dos_hour(dostime) <= 31,
        0 <= dos_day(dostime) <= 31,
        0 <= dos_month(dostime) <= 15,
        1980 <= dos_year(dostime) <= 2107,
{
    assert(((dostime & 0x1f) << 1) <= 62) by (bit_vector);
    assert(((dostime >> 5) & 0x3f) <= 63) by (bit_vector);
    assert(((dostime >> 11) & 0x1f) <= 31) by (bit_vector);
    assert(((dostime >> 16) & 0x1f) <= 31) by (bit_vector);
    assert(((dostime >> 21) & 0x0f) <= 15) by (bit_vector);
    assert(((dostime >> 25) & 0x7f) <= 127) by (bit_vector);
}

/// The leap years up to and including `year` are those before it and, where
/// it is one, the year itself.
proof fn lemma_leap_years_through(year: int)
    requires
        1900 <= year <= 2200,
    ensures
        year / 4 - year / 100 + year / 400 == leap_years_before(year) + if is_leap_year(year) {
            1int
        } else {
            0int
        },
{
    assert(year / 4 == (year - 1) / 4 + if year % 4 == 0 {
        1int
    } else {
        0int
    });
    assert(year / 100 == (year - 1) / 100 + if year % 100 == 0 {
        1int
    } else {
        0int
    });
    assert(year / 400 == (year - 1) / 400 + if year % 400 == 0 {
        1int
    } else {
        0int
    });
    if year % 100 == 0 {
        assert(year % 4 == 0);
    }
    if year % 400 == 0 {
        assert(year % 100 == 0);
    }
}

/// Counting by 400-year cycles gives the same number of leap days as
/// counting them directly.
proof fn lemma_cycle_split(y: int)
    requires
        1900 <= y <= 2200,
    ensures
        (y / 400) * 97 + (y % 400) / 4 - (y % 400) / 100 == y / 4 - y / 100 + y / 400,
{
    let era = y / 400;
    let yoe = y % 400;
    assert(era == 4 || era == 5);
    assert(y == 400 * era + yoe);
    assert(y / 4 == 100 * era + yoe / 4);
    assert(y / 100 == 4 * era + yoe / 100);
}

/// Days from 1970-01-01 to a date, by counting whole 400-year cycles from
/// March 1 of year 0.
fn days_from_epoch(year: u32, month: u32, day: u32) -> (days: i64)
    requires
        1980 <= year <= 2107,
        1 <= month <= 12,
        day <= 31,
    ensures
        days == days_from_civil(year as int, month as int, day as int),
        0 <= days <= 51000,
{
    let y: i64 = if month <= 2 {
        year as i64 - 1
    } else {
        year as i64
    };
    let era: i64 = y / 400;
    let yoe: i64 = y % 400;
    let m: i64 = month as i64;
    let doy: i64 = if m > 2 {
        (153 * (m - 3) + 2) / 5 + day as i64 - 1
    } else {
        (153 * (m + 9) + 2) / 5 + day as i64 - 1
    };
    let doe: i64 = yoe * 365 + yoe / 4 - yoe / 100 + doy;
    proof {
        lemma_cycle_split(y as int);
        lemma_leap_years_through(y as int);
        assert(leap_years_before(1970) == 477);
        assert(y as int == 400 * era + yoe);
        if m > 2 {
            assert(doy == days_before_month(m as int, false) - 59 + day - 1);
        } else {
            assert(doy == days_before_month(m as int, false) + 306 + day - 1);
            assert(leap_years_before(year as int) == y / 4 - y / 100 + y / 400);
        }
        assert(era * 146097 + doe - 719468 == days_from_civil(
            year as int,
            month as int,
            day as int,
        ));
    }
    era * 146097 + doe - 719468
}

/// Converts a DOS timestamp to seconds since 1970-01-01 00:00:00, or
/// nothing where the timestamp is not valid.
pub fn dos_datetime_to_systime(dostime: u32) -> (r: Option<u64>)
    ensures
        r is Some <==> dos_datetime_valid(dostime),
        r matches Some(secs) ==> secs == dos_unix_seconds(dostime),
{
    let sec = (dostime & 0x1f) << 1;
    let min = (dostime >> 5) & 0x3f;
    let hour = (dostime >> 11) & 0x1f;
    let day = (dostime >> 16) & 0x1f;
    let month = (dostime >> 21) & 0x0f;
    proof {
        lemma_field_ranges(dostime);
    }
    let year = ((dostime >> 25) & 0x7f) + 1980;
    if month < 1 || month > 12 || day < 1 || day > 31 {
        return None;
    }
    let days = days_from_epoch(year, month, day);
    let secs = days as u64 * 86400 + hour as u64 * 3600 + min as u64 * 60 + sec as u64;
    Some(secs)
}

/// A timestamp as `YYYY-MM-DD HH:MM:SS`, every field in decimal with
/// leading zeros. The fields are shown as they are stored, valid or not.
pub open spec fn dos_datetime_text(dostime: u32) -> Seq<char> {
    padded_digits(dos_year(dostime) as nat, 10, 4) + seq!['-'] + padded_digits(
        dos_month(dostime) as nat,
        10,
        2,
    ) + seq!['-'] + padded_digits(dos_day(dostime) as nat, 10, 2) + seq![' '] + padded_digits(
        dos_hour(dostime) as nat,
        10,
        2,
    ) + seq![':'] + padded_digits(dos_minute(dostime) as nat, 10, 2) + seq![':'] + padded_digits(
        dos_second(dostime) as nat,
        10,
        2,
    )
}

/// Formats a DOS timestamp for display.
pub fn dos_datetime_to_string(dostime: u32) -> (s: String)
    ensures
        s@ == dos_datetime_text(dostime),
{
    let sec = (dostime & 0x1f) << 1;
    let min = (dostime >> 5) & 0x3f;
    let hour = (dostime >> 11) & 0x1f;
    let day = (dostime >> 16) & 0x1f;
    let month = (dostime >> 21) & 0x0f;
    proof {
        lemma_field_ranges(dostime);
        reveal_strlit("-");
        reveal_strlit(" ");
        reveal_strlit(":");
    }
    let year = ((dostime >> 25) & 0x7f) + 1980;
    let mut s = String::new();
    push_padded(&mut s, year as u64, 10, 4);
    s.append("-");
    push_padded(&mut s, month as u64, 10, 2);
    s.append("-");
    push_padded(&mut s, day as u64, 10, 2);
    s.append(" ");
    push_padded(&mut s, hour as u64, 10, 2);
    s.append(":");
    push_padded(&mut s, min as u64, 10, 2);
    s.append(":");
    push_padded(&mut s, sec as u64, 10, 2);
    proof {
        assert("-"@ =~= seq!['-']);
        assert(" "@ =~= seq![' ']);
        assert(":"@ =~= seq![':']);
        assert(s@ =~= dos_datetime_text(dostime));
    }
    s
}

} // verus!
