//! Calendar time: the MS-DOS date and time words of ZIP headers, the
//! Gregorian calendar, and seconds since 1 January 1970.

use crate::bytes::{le16_bytes, u16_to_le};
use vstd::pervasive::unreached;
use vstd::prelude::*;

verus! {

/// A day of the Gregorian calendar and a time of that day.
#[derive(Clone, Copy, Debug, PartialEq, Eq, Structural)]
pub struct CivilTime {
    pub year: i32,
    pub month: u32,
    pub day: u32,
    pub hour: u32,
    pub minute: u32,
    pub second: u32,
}

/// Whether year `y` has a 29 February.
pub open spec fn is_leap_year(y: int) -> bool {
    y % 4 == 0 && (y % 100 != 0 || y % 400 == 0)
}

/// The number of days of year `y`.
pub open spec fn days_in_year(y: int) -> int {
    if is_leap_year(y) {
        366
    } else {
        365
    }
}

/// The number of days of month `m` of year `y`.
pub open spec fn days_in_month(y: int, m: int) -> int {
    if m == 2 {
        if is_leap_year(y) {
            29
        } else {
            28
        }
    } else if m == 4 || m == 6 || m == 9 || m == 11 {
        30
    } else {
        31
    }
}

/// The number of days from 1 January 1970 to 1 January of year `y`.
pub open spec fn days_before_year(y: int) -> int
    decreases y,
{
    if y <= 1970 {
        0
    } else {
        days_before_year(y - 1) + days_in_year(y - 1)
    }
}

/// The number of days from 1 January of year `y` to the first day of its
/// month `m`.
pub open spec fn days_before_month(y: int, m: int) -> int
    decreases m,
{
    if m <= 1 {
        0
    } else {
        days_before_month(y, m - 1) + days_in_month(y, m - 1)
    }
}

impl CivilTime {
    /// The day exists in the calendar, not before 1970, and the time exists
    /// in a day without leap second.
    pub open spec fn wf(self) -> bool {
        &&& 1970 <= self.year
        &&& 1 <= self.month <= 12
        &&& 1 <= self.day <= days_in_month(self.year as int, self.month as int)
        &&& self.hour < 24
        &&& self.minute < 60
        &&& self.second < 60
    }

    /// The number of days from 1 January 1970 to this day.
    pub open spec fn day_number(self) -> int {
        days_before_year(self.year as int) + days_before_month(
            self.year as int,
            self.month as int,
        ) + (self.day - 1)
    }

    /// The number of seconds from midnight to this time of day.
    pub open spec fn second_of_day(self) -> int {
        self.hour * 3600 + self.minute * 60 + self.second
    }

    /// The number of seconds, leap seconds not counted, from the start of
    /// 1 January 1970 to this time.
    pub open spec fn unix_seconds(self) -> int {
        self.day_number() * 86400 + self.second_of_day()
    }
}

/// The time that lies `secs` seconds after the start of 1 January 1970.
pub open spec fn civil_of_unix(secs: int) -> CivilTime {
    choose|c: CivilTime| c.wf() && c.unix_seconds() == secs
}

/// Where each month starts in its year.
proof fn lemma_month_starts(y: int)
    ensures
        days_before_month(y, 1) == 0,
        days_before_month(y, 2) == 31,
        days_before_month(y, 3) == days_before_month(y, 2) + days_in_month(y, 2),
        days_before_month(y, 4) == days_before_month(y, 3) + 31,
        days_before_month(y, 5) == days_before_month(y, 4) + 30,
        days_before_month(y, 6) == days_before_month(y, 5) + 31,
        days_before_month(y, 7) == days_before_month(y, 6) + 30,
        days_before_month(y, 8) == days_before_month(y, 7) + 31,
        days_before_month(y, 9) == days_before_month(y, 8) + 31,
        days_before_month(y, 10) == days_before_month(y, 9) + 30,
        days_before_month(y, 11) == days_before_month(y, 10) + 31,
        days_before_month(y, 12) == days_before_month(y, 11) + 30,
        days_before_month(y, 12) + 31 == days_in_year(y),
{
    reveal_with_fuel(days_before_month, 13);
}

/// A later year starts no earlier.
proof fn lemma_year_starts_ordered(a: int, b: int)
    requires
        1970 <= a <= b,
    ensures
        0 <= days_before_year(a) <= days_before_year(b),
    decreases b - a,
{
    if a < b {
        lemma_year_starts_ordered(a, b - 1);
    } else {
        lemma_year_starts_nonneg(a);
    }
}

proof fn lemma_year_starts_nonneg(a: int)
    ensures
        0 <= days_before_year(a),
    decreases a,
{
    if a > 1970 {
        lemma_year_starts_nonneg(a - 1);
    }
}

/// A day of the calendar lies within its year.
proof fn lemma_day_within_year(c: CivilTime)
    requires
        c.wf(),
    ensures
        days_before_year(c.year as int) <= c.day_number() < days_before_year(c.year + 1),
{
    lemma_month_starts(c.year as int);
}

/// No two days of the calendar have the same number.
proof fn lemma_day_number_injective(a: CivilTime, b: CivilTime)
    requires
        a.wf(),
        b.wf(),
        a.day_number() == b.day_number(),
    ensures
        a.year == b.year,
        a.month == b.month,
        a.day == b.day,
{
    lemma_day_within_year(a);
    lemma_day_within_year(b);
    if a.year < b.year {
        lemma_year_starts_ordered(a.year + 1, b.year as int);
    } else if b.year < a.year {
        lemma_year_starts_ordered(b.year + 1, a.year as int);
    } else {
        lemma_month_starts(a.year as int);
    }
}

/// A time of the calendar is not before 1970.
pub proof fn lemma_unix_seconds_nonneg(c: CivilTime)
    requires
        c.wf(),
    ensures
        0 <= c.unix_seconds(),
{
    lemma_day_within_year(c);
    lemma_year_starts_nonneg(c.year as int);
}

/// Two times of the calendar that are equally far from 1970 are the same
/// time.
pub proof fn lemma_unix_seconds_injective(a: CivilTime, b: CivilTime)
    requires
        a.wf(),
        b.wf(),
        a.unix_seconds() == b.unix_seconds(),
    ensures
        a == b,
{
    let sa = a.second_of_day();
    let sb = b.second_of_day();
    assert(0 <= sa < 86400 && 0 <= sb < 86400);
    assert(a.day_number() == b.day_number());
    lemma_day_number_injective(a, b);
    assert(a.hour == b.hour);
    assert(a.minute == b.minute);
}

/// `civil_of_unix` undoes `unix_seconds`.
pub proof fn lemma_civil_of_unix(c: CivilTime)
    requires
        c.wf(),
    ensures
        civil_of_unix(c.unix_seconds()) == c,
{
    let d = civil_of_unix(c.unix_seconds());
    lemma_unix_seconds_injective(c, d);
}

/// The second after `c`.
pub open spec fn next_second(c: CivilTime) -> CivilTime {
    if c.second < 59 {
        CivilTime { second: (c.second + 1) as u32, ..c }
    } else if c.minute < 59 {
        CivilTime { minute: (c.minute + 1) as u32, second: 0, ..c }
    } else if c.hour < 23 {
        CivilTime { hour: (c.hour + 1) as u32, minute: 0, second: 0, ..c }
    } else if c.day < days_in_month(c.year as int, c.month as int) {
        CivilTime { day: (c.day + 1) as u32, hour: 0, minute: 0, second: 0, ..c }
    } else if c.month < 12 {
        CivilTime { month: (c.month + 1) as u32, day: 1, hour: 0, minute: 0, second: 0, ..c }
    } else {
        CivilTime { year: (c.year + 1) as i32, month: 1, day: 1, hour: 0, minute: 0, second: 0 }
    }
}

/// The second after a time of the calendar is a time of the calendar, one
/// second further from 1970.
proof fn lemma_next_second(c: CivilTime)
    requires
        c.wf(),
        c.year < 1_000_000,
    ensures
        next_second(c).wf(),
        next_second(c).unix_seconds() == c.unix_seconds() + 1,
{
    lemma_month_starts(c.year as int);
    lemma_month_starts(c.year + 1);
    let n = next_second(c);
    if c.second < 59 || c.minute < 59 || c.hour < 23 {
    } else if c.day < days_in_month(c.year as int, c.month as int) {
    } else if c.month < 12 {
        assert(days_before_month(c.year as int, c.month + 1) == days_before_month(
            c.year as int,
            c.month as int,
        ) + days_in_month(c.year as int, c.month as int));
    } else {
        assert(days_before_year(c.year + 1) == days_before_year(c.year as int) + days_in_year(
            c.year as int,
        ));
    }
}

/// A year starts at least 365 days behind each year before it, and leap
/// days are no more than one in four years.
pub proof fn lemma_year_start_bounds(y: int)
    requires
        1970 <= y,
    ensures
        365 * (y - 1970) <= days_before_year(y) <= 365 * (y - 1970) + (y - 1969) / 4,
    decreases y,
{
    if y > 1970 {
        lemma_year_start_bounds(y - 1);
    }
}

/// A time of the calendar within 32 bits of seconds lies before 2107, and a
/// time of a year lies between the start of the year and of the next.
pub proof fn lemma_year_of_seconds(c: CivilTime)
    requires
        c.wf(),
    ensures
        days_before_year(c.year as int) * 86400 <= c.unix_seconds() < days_before_year(
            c.year + 1,
        ) * 86400,
        c.unix_seconds() <= u32::MAX ==> c.year <= 2106,
{
    lemma_day_within_year(c);
    lemma_year_start_bounds(c.year as int);
}

/// Every count of seconds within 32 bits is the time of a second of the
/// calendar.
pub proof fn lemma_civil_exists(ts: int)
    requires
        0 <= ts <= u32::MAX,
    ensures
        civil_of_unix(ts).wf(),
        civil_of_unix(ts).unix_seconds() == ts,
        1970 <= civil_of_unix(ts).year <= 2106,
    decreases ts,
{
    if ts == 0 {
        let c = CivilTime { year: 1970, month: 1, day: 1, hour: 0, minute: 0, second: 0 };
        assert(c.wf() && c.unix_seconds() == 0);
    } else {
        lemma_civil_exists(ts - 1);
        let c = civil_of_unix(ts - 1);
        lemma_next_second(c);
        let n = next_second(c);
        assert(n.wf() && n.unix_seconds() == ts);
    }
    lemma_year_of_seconds(civil_of_unix(ts));
}

/// The hour that a DOS time word holds.
pub open spec fn dos_hour(t: u16) -> u32 {
    ((t >> 11) & 0x1f) as u32
}

/// The minute that a DOS time word holds.
pub open spec fn dos_minute(t: u16) -> u32 {
    ((t >> 5) & 0x3f) as u32
}

/// The second that a DOS time word holds: it counts seconds by twos.
pub open spec fn dos_second(t: u16) -> u32 {
    (2 * (t & 0x1f)) as u32
}

/// The year that a DOS date word holds: it counts years from 1980.
pub open spec fn dos_year(d: u16) -> i32 {
    (((d >> 9) & 0x7f) + 1980) as i32
}

/// The month that a DOS date word holds.
pub open spec fn dos_month(d: u16) -> u32 {
    ((d >> 5) & 0x0f) as u32
}

/// The day of the month that a DOS date word holds.
pub open spec fn dos_day(d: u16) -> u32 {
    (d & 0x1f) as u32
}

/// The time word holds a time of day.
pub open spec fn dos_time_valid(t: u16) -> bool {
    dos_hour(t) < 24 && dos_minute(t) < 60 && dos_second(t) < 60
}

/// The date word holds a year from 1970 on, a month of the year and a day
/// from 1 to 31. The day need not exist in that month.
pub open spec fn dos_date_valid(d: u16) -> bool {
    dos_year(d) >= 1970 && 1 <= dos_month(d) <= 12 && 1 <= dos_day(d) <= 31
}

/// The time that a DOS time word and a DOS date word hold together.
pub open spec fn dos_civil(t: u16, d: u16) -> CivilTime {
    CivilTime {
        year: dos_year(d),
        month: dos_month(d),
        day: dos_day(d),
        hour: dos_hour(t),
        minute: dos_minute(t),
        second: dos_second(t),
    }
}

/// The DOS time word of a time; an odd second is rounded down.
pub open spec fn dos_time_word(c: CivilTime) -> u16 {
    ((c.hour << 11) | (c.minute << 5) | (c.second / 2)) as u16
}

/// The DOS date word of a day. The year field has seven bits: it holds the
/// years since 1980 modulo 128.
pub open spec fn dos_date_word(c: CivilTime) -> u16 {
    ((((c.year - 1980) % 128) as u16) << 9) | ((c.month as u16) << 5) | (c.day as u16)
}

/// The four bytes that spell the time `ts` seconds after 1970 in a ZIP
/// header: the DOS time word and behind it the DOS date word.
pub open spec fn dos_bytes_of_unix(ts: u32) -> Seq<u8> {
    let c = civil_of_unix(ts as int);
    le16_bytes(dos_time_word(c)) + le16_bytes(dos_date_word(c))
}

/// The fields of a DOS time word put together give the word again.
pub proof fn lemma_dos_time_word(t: u16)
    ensures
        dos_time_word(dos_civil(t, 0)) == t,
{
    assert(((((t >> 11) & 0x1f) as u32) << 11 | (((t >> 5) & 0x3f) as u32) << 5 | ((2 * (t
        & 0x1f)) as u32) / 2) as u16 == t) by (bit_vector);
}

/// The fields of a DOS date word put together give the word again.
pub proof fn lemma_dos_date_word(d: u16)
    ensures
        dos_date_word(dos_civil(0, d)) == d,
{
    let y = (d >> 9) & 0x7f;
    assert(y < 128) by (bit_vector)
        requires
            y == (d >> 9) & 0x7f,
    ;
    assert((dos_year(d) - 1980) % 128 == y);
    assert((y << 9) | ((((d >> 5) & 0x0f) as u32) as u16) << 5 | (((d & 0x1f) as u32) as u16)
        == d) by (bit_vector)
        requires
            y == (d >> 9) & 0x7f,
    ;
}

/// The DOS words of a time hold the time again, the second rounded down to
/// an even one, and the year as far as seven bits hold it: from 1980 to
/// 2107 the year itself, before 1980 the year 128 years later.
pub proof fn lemma_dos_civil_of_words(c: CivilTime)
    requires
        c.wf(),
        c.year <= 2107,
    ensures
        dos_civil(dos_time_word(c), dos_date_word(c)) == (CivilTime {
            year: if c.year >= 1980 {
                c.year
            } else {
                (c.year + 128) as i32
            },
            second: (c.second / 2 * 2) as u32,
            ..c
        }),
        dos_time_valid(dos_time_word(c)),
{
    let h = c.hour;
    let m = c.minute;
    let s = c.second;
    let t = dos_time_word(c);
    assert(((((h << 11) | (m << 5) | (s / 2)) as u16 >> 11) & 0x1f) as u32 == h && ((((h << 11) | (
    m << 5) | (s / 2)) as u16 >> 5) & 0x3f) as u32 == m && (2 * (((h << 11) | (m << 5) | (s
        / 2)) as u16 & 0x1f)) as u32 == s / 2 * 2) by (bit_vector)
        requires
            h < 24,
            m < 60,
            s < 60,
    ;
    let f = ((c.year - 1980) % 128) as u16;
    let mo = c.month as u16;
    let d = c.day as u16;
    assert(d < 32);
    assert((((f << 9) | (mo << 5) | d) >> 9) & 0x7f == f && (((f << 9) | (mo << 5) | d) >> 5) & 0x0f
        == mo && ((f << 9) | (mo << 5) | d) & 0x1f == d) by (bit_vector)
        requires
            f < 128,
            mo < 16,
            d < 32,
    ;
}

/// chrono's `NaiveDate::from_ymd_opt`, `NaiveDate::and_hms_opt`,
/// `NaiveDateTime::and_utc` and `DateTime::timestamp`, one after the other.
///
/// Trusted: a result comes exactly where the day exists in the calendar and
/// the time in a day, and it is the count of seconds from the start of 1970.
#[verifier::external_body]
pub(crate) fn civil_to_unix(c: CivilTime) -> (r: Option<i64>)
    requires
        1970 <= c.year <= 9999,
    ensures
        r.is_some() <==> c.wf(),
        r matches Some(secs) ==> secs == c.unix_seconds(),
{
    let day = chrono::NaiveDate::from_ymd_opt(c.year, c.month, c.day)?;
    let at = day.and_hms_opt(c.hour, c.minute, c.second)?;
    Some(at.and_utc().timestamp())
}

/// chrono's `DateTime::from_timestamp`, and the getters of `Datelike` and
/// `Timelike` on what it gives.
///
/// Trusted: every count of seconds that fits 32 bits has a time, which is a
/// time of the calendar that many seconds after the start of 1970.
#[verifier::external_body]
pub(crate) fn unix_to_civil(secs: u32) -> (r: Option<CivilTime>)
    ensures
        r.is_some(),
        r matches Some(c) ==> c.wf() && c.unix_seconds() == secs,
{
    let at = chrono::DateTime::from_timestamp(i64::from(secs), 0)?;
    Some(
        CivilTime {
            year: chrono::Datelike::year(&at),
            month: chrono::Datelike::month(&at),
            day: chrono::Datelike::day(&at),
            hour: chrono::Timelike::hour(&at),
            minute: chrono::Timelike::minute(&at),
            second: chrono::Timelike::second(&at),
        },
    )
}

/// The DOS time word of a time of the calendar.
pub fn pack_dos_time(c: CivilTime) -> (w: u16)
    requires
        c.wf(),
    ensures
        w == dos_time_word(c),
{
    let h: u32 = c.hour;
    let m: u32 = c.minute;
    let s: u32 = c.second;
    assert(h * 2048 + m * 32 + s / 2 == (h << 11) | (m << 5) | (s / 2) && h * 2048 + m * 32 + s
        / 2 < 65536) by (bit_vector)
        requires
            h < 24,
            m < 60,
            s < 60,
    ;
    (h * 2048 + m * 32 + s / 2) as u16
}

/// The DOS date word of a day of the calendar.
pub fn pack_dos_date(c: CivilTime) -> (w: u16)
    requires
        c.wf(),
    ensures
        w == dos_date_word(c),
{
    let y: u16 = ((c.year as i64 - 1852) % 128) as u16;
    let m: u16 = c.month as u16;
    let d: u16 = c.day as u16;
    assert(y == (c.year - 1980) % 128);
    assert(y * 512 + m * 32 + d == (y << 9) | (m << 5) | d && y * 512 + m * 32 + d < 65536)
        by (bit_vector)
        requires
            y < 128,
            m < 16,
            d < 32,
    ;
    y * 512 + m * 32 + d
}

/// Spells a count of seconds since 1970 as the DOS time and date words of a
/// ZIP header, each little-endian.
pub fn dostime_to_bytes(ts: u32) -> (res: [u8; 4])
    ensures
        res@ == dos_bytes_of_unix(ts),
{
    let c: CivilTime = match unix_to_civil(ts) {
        Some(c) => c,
        None => unreached(),
    };
    proof {
        lemma_civil_of_unix(c);
    }
    let time: [u8; 2] = u16_to_le(pack_dos_time(c));
    let date: [u8; 2] = u16_to_le(pack_dos_date(c));
    let res: [u8; 4] = [time[0], time[1], date[0], date[1]];
    assert(res@ =~= dos_bytes_of_unix(ts));
    res
}

} // verus!
