//! Calendar dates and times from Unix time (seconds since 1970-01-01 00:00 UTC), in UTC or
//! a time zone (`Zone`).

use crate::text;
use crate::text::{push_decimal, same_text};
use vstd::prelude::*;

verus! {

#[derive(Clone, Copy, Debug, PartialEq, Eq, Structural)]
pub struct DateTime {
    pub year: i64,
    /// 1 to 12.
    pub month: u8,
    /// 1 to 31.
    pub day: u8,
    pub hour: u8,
    pub minute: u8,
    pub second: u8,
    /// 0 for Monday to 6 for Sunday.
    pub weekday: u8,
}

pub open spec fn is_leap_year(year: int) -> bool {
    year % 4 == 0 && (year % 100 != 0 || year % 400 == 0)
}

pub open spec fn month_length(year: int, month: int) -> int {
    if month == 2 {
        if is_leap_year(year) {
            29
        } else {
            28
        }
    } else if month == 4 || month == 6 || month == 9 || month == 11 {
        30
    } else {
        31
    }
}

/// Whether that day is in the calendar.
pub open spec fn is_date(year: int, month: int, day: int) -> bool {
    1 <= month <= 12 && 1 <= day <= month_length(year, month)
}

/// Days from the start of a year to the start of its `month`.
pub open spec fn days_before_month(year: int, month: int) -> int {
    (if month == 1 {
        0int
    } else if month == 2 {
        31
    } else if month == 3 {
        59
    } else if month == 4 {
        90
    } else if month == 5 {
        120
    } else if month == 6 {
        151
    } else if month == 7 {
        181
    } else if month == 8 {
        212
    } else if month == 9 {
        243
    } else if month == 10 {
        273
    } else if month == 11 {
        304
    } else {
        334
    }) + if month > 2 && is_leap_year(year) {
        1int
    } else {
        0
    }
}

/// Days from 1970-01-01 to the start of `year`: a leap day every fourth year, but not every
/// hundredth, but every four hundredth.
pub open spec fn year_start(year: int) -> int {
    let past = year - 1;
    365 * past + past / 4 - past / 100 + past / 400 - 719_162
}

/// Days from 1970-01-01 to `year`-`month`-`day`.
pub open spec fn day_number(year: int, month: int, day: int) -> int {
    year_start(year) + days_before_month(year, month) + day - 1
}

/// The day after a date.
pub open spec fn next_day(year: int, month: int, day: int) -> (int, int, int) {
    if day < month_length(year, month) {
        (year, month, day + 1)
    } else if month < 12 {
        (year, month + 1, 1)
    } else {
        (year + 1, 1, 1)
    }
}

/// Days are counted one by one from 1970-01-01.
pub proof fn days_are_counted_one_by_one(year: int, month: int, day: int)
    requires
        is_date(year, month, day),
    ensures
        day_number(1970, 1, 1) == 0,
        ({
            let (y, m, d) = next_day(year, month, day);
            is_date(y, m, d) && day_number(y, m, d) == day_number(year, month, day) + 1
        }),
{
    lemma_year_length(year);
}

proof fn lemma_year_length(year: int)
    ensures
        year_start(year + 1) == year_start(year) + 365 + if is_leap_year(year) {
            1int
        } else {
            0
        },
{
    let past = year - 1;
    assert(year / 4 == past / 4 + if year % 4 == 0 {
        1int
    } else {
        0
    });
    assert(year / 100 == past / 100 + if year % 100 == 0 {
        1int
    } else {
        0
    });
    assert(year / 400 == past / 400 + if year % 400 == 0 {
        1int
    } else {
        0
    });
}

/// Days from 1970-01-01 to `year`-`month`-`day` (Howard Hinnant's days_from_civil). Months
/// past 12 are those of the next year.
pub fn days_from_civil(year: i64, month: u8, day: u8) -> (r: i64)
    requires
        -0x1_0000_0000_0000 <= year <= 0x1_0000_0000_0000,
        1 <= month <= 24,
    ensures
        r == if month > 12 {
            day_number(year + 1, month - 12, day as int)
        } else {
            day_number(year as int, month as int, day as int)
        },
{
    let (year, month): (i64, u8) = if month > 12 {
        (year + 1, month - 12)
    } else {
        (year, month)
    };
    // Years start in March here, so the leap day comes last.
    let shifted: i64 = if month <= 2 {
        year - 1
    } else {
        year
    };
    // Moved by whole eras of 400 years, so it isn't negative.
    let moved: u64 = (shifted + 400 * 0x4000_0000_0000) as u64;
    let era: i64 = (moved / 400) as i64 - 0x4000_0000_0000;
    let yoe: i64 = (moved % 400) as i64;
    let mp: i64 = if month > 2 {
        month as i64 - 3
    } else {
        month as i64 + 9
    };
    let doy: i64 = (153 * mp as u64 + 2) as i64;
    proof {
        lemma_civil(year as int, month as int, day as int, era as int, yoe as int);
    }
    era * 146_097 + yoe * 365 + (yoe as u64 / 4) as i64 - (yoe as u64 / 100) as i64 + (doy as u64
        / 5) as i64 + day as i64 - 1 - 719_468
}

/// The day number, counted in years that start in March and eras of 400 of them.
proof fn lemma_civil(year: int, month: int, day: int, era: int, yoe: int)
    requires
        1 <= month <= 12,
        0 <= yoe < 400,
        400 * era + yoe == if month <= 2 {
            year - 1
        } else {
            year
        },
    ensures
        ({
            let mp = if month > 2 {
                month - 3
            } else {
                month + 9
            };
            era * 146_097 + yoe * 365 + yoe / 4 - yoe / 100 + (153 * mp + 2) / 5 + day - 1
                - 719_468 == day_number(year, month, day)
        }),
{
    let y = 400 * era + yoe;
    assert(y / 4 == 100 * era + yoe / 4);
    assert(y / 100 == 4 * era + yoe / 100);
    assert(y / 400 == era);
    assert(365 * y + y / 4 - y / 100 + y / 400 == era * 146_097 + yoe * 365 + yoe / 4 - yoe / 100);
    assert(year_start(y + 1) == 365 * y + y / 4 - y / 100 + y / 400 - 719_162);
    if month > 2 {
        lemma_year_length(y);
    }
}

/// A month ends the day before the next one starts.
proof fn lemma_month_end(year: int, month: int)
    requires
        1 <= month <= 12,
    ensures
        day_number(year, month, month_length(year, month)) == if month < 12 {
            day_number(year, month + 1, 1) - 1
        } else {
            day_number(year + 1, 1, 1) - 1
        },
        -0x1_0000_0000_0001 <= year <= 0x1_0000_0000_0001 ==> -0x200_0000_0000_0000 <= day_number(
            year,
            month,
            month_length(year, month),
        ) <= 0x200_0000_0000_0000,
{
    lemma_year_length(year);
}

/// The last day of a month that is a Sunday, counted from 1970-01-01.
pub open spec fn is_last_sunday(day: int, year: int, month: int) -> bool {
    let last = day_number(year, month, month_length(year, month));
    &&& last - 7 < day <= last
    &&& (day + 3) % 7 == 6
}

/// The day (counted from 1970-01-01) of the last Sunday in `year`'s `month`.
pub fn last_sunday(year: i64, month: u8) -> (r: i64)
    requires
        -0x1_0000_0000_0000 <= year <= 0x1_0000_0000_0000,
        1 <= month <= 12,
    ensures
        is_last_sunday(r as int, year as int, month as int),
{
    let last = days_from_civil(year, month + 1, 1) - 1;
    proof {
        lemma_month_end(year as int, month as int);
    }
    sunday_until(last)
}

/// The last Sunday on or before day `last`.
fn sunday_until(last: i64) -> (r: i64)
    requires
        -0x200_0000_0000_0000 <= last <= 0x200_0000_0000_0000,
    ensures
        last - 7 < r <= last,
        (r + 3) % 7 == 6,
{
    // 1970-01-01 was a Thursday: day d is weekday (d + 3) mod 7, with Sunday 6.
    let weekday: i64 = ((last + 3 + 7 * 0x400_0000_0000_0000) as u64 % 7) as i64;
    assert(weekday == (last + 3) % 7);
    last - (if weekday == 6 {
        0
    } else {
        weekday + 1
    })
}

/// A time zone: how far local time is from UTC, and when that changes.
#[derive(Clone, Copy, Debug, PartialEq, Eq, Structural)]
pub enum Zone {
    Utc,
    /// Sweden (and most of central Europe): CET, UTC+1, and CEST, UTC+2, from the last
    /// Sunday of March to the last Sunday of October, switching at 01:00 UTC.
    Sweden,
}

/// Whether it is summer time in Sweden at `unix`, in `year`.
pub open spec fn is_summer(unix: int, year: int) -> bool {
    exists|start: int, end: int|
        #[trigger] is_last_sunday(start, year, 3) && #[trigger] is_last_sunday(end, year, 10)
            && start * 86_400 + 3600 <= unix < end * 86_400 + 3600
}

impl Zone {
    /// Every zone.
    pub fn all() -> (r: [Zone; 2])
        ensures
            r@ == seq![Zone::Utc, Zone::Sweden],
    {
        let r = [Zone::Utc, Zone::Sweden];
        assert(r@ =~= seq![Zone::Utc, Zone::Sweden]);
        r
    }

    pub open spec fn word(self) -> Seq<char> {
        match self {
            Zone::Utc => "utc"@,
            Zone::Sweden => "sv"@,
        }
    }

    /// Its short name, as `from_name` takes it.
    pub fn name(self) -> (r: &'static str)
        ensures
            r@ == self.word(),
    {
        match self {
            Zone::Utc => "utc",
            Zone::Sweden => "sv",
        }
    }

    pub open spec fn named(name: Seq<char>) -> Option<Zone> {
        if name == "utc"@ {
            Some(Zone::Utc)
        } else if name == "sv"@ || name == "se"@ || name == "cet"@ {
            Some(Zone::Sweden)
        } else {
            None
        }
    }

    pub fn from_name(name: &str) -> (r: Option<Zone>)
        ensures
            r == Zone::named(name@),
    {
        if same_text(name, "utc") {
            Some(Zone::Utc)
        } else if same_text(name, "sv") || same_text(name, "se") || same_text(name, "cet") {
            Some(Zone::Sweden)
        } else {
            None
        }
    }

    /// How many seconds local time is ahead of UTC at `unix`, and what that time is called.
    pub fn offset(self, unix: u64) -> (r: (u64, &'static str))
        requires
            self == Zone::Utc || unix + 366 * 86_400 <= i64::MAX,
        ensures
            match self {
                Zone::Utc => r.0 == 0 && r.1@ == "UTC"@,
                Zone::Sweden => if is_summer(unix as int, date_of(unix).year as int) {
                    r.0 == 7200 && r.1@ == "CEST"@
                } else {
                    r.0 == 3600 && r.1@ == "CET"@
                },
            },
    {
        match self {
            Zone::Utc => (0, "UTC"),
            Zone::Sweden => {
                let date = DateTime::from_unix(unix);
                proof {
                    date_is_unique(unix, date);
                    lemma_year_bounds(unix, date);
                }
                let start = last_sunday(date.year, 3);
                let end = last_sunday(date.year, 10);
                let from = start * 86_400 + 3600;
                let to = end * 86_400 + 3600;
                proof {
                    lemma_sundays_unique(date.year as int, start as int, end as int);
                }
                if from <= unix as i64 && (unix as i64) < to {
                    assert(is_summer(unix as int, date.year as int));
                    (7200, "CEST")
                } else {
                    (3600, "CET")
                }
            },
        }
    }

    /// The local date and time at `unix`, and what the time is called.
    pub fn local(self, unix: u64) -> (r: (DateTime, &'static str))
        requires
            self == Zone::Utc || unix + 366 * 86_400 <= i64::MAX,
        ensures
            match self {
                Zone::Utc => is_date_of(unix, r.0) && r.1@ == "UTC"@,
                Zone::Sweden => if is_summer(unix as int, date_of(unix).year as int) {
                    is_date_of((unix + 7200) as u64, r.0) && r.1@ == "CEST"@
                } else {
                    is_date_of((unix + 3600) as u64, r.0) && r.1@ == "CET"@
                },
            },
    {
        let (offset, name) = self.offset(unix);
        (DateTime::from_unix(unix + offset), name)
    }
}

/// Every zone is found by its name.
pub proof fn zones_are_found_by_name(zone: Zone)
    ensures
        Zone::named(zone.word()) == Some(zone),
{
    reveal_strlit("utc");
    reveal_strlit("sv");
    assert("utc"@.len() == 3 && "sv"@.len() == 2);
}

proof fn lemma_sundays_unique(year: int, start: int, end: int)
    requires
        is_last_sunday(start, year, 3),
        is_last_sunday(end, year, 10),
    ensures
        forall|d: int| #[trigger] is_last_sunday(d, year, 3) ==> d == start,
        forall|d: int| #[trigger] is_last_sunday(d, year, 10) ==> d == end,
{
    let march = day_number(year, 3, month_length(year, 3));
    let october = day_number(year, 10, month_length(year, 10));
    assert forall|d: int| #[trigger] is_last_sunday(d, year, 3) implies d == start by {
        lemma_one_sunday(march, start, d);
    }
    assert forall|d: int| #[trigger] is_last_sunday(d, year, 10) implies d == end by {
        lemma_one_sunday(october, end, d);
    }
}

proof fn lemma_one_sunday(last: int, d: int, e: int)
    requires
        last - 7 < d <= last,
        last - 7 < e <= last,
        (d + 3) % 7 == 6,
        (e + 3) % 7 == 6,
    ensures
        d == e,
{
}

/// Whether `date` is the date and time `unix` seconds after 1970-01-01 00:00 UTC.
pub open spec fn is_date_of(unix: u64, date: DateTime) -> bool {
    &&& is_date(date.year as int, date.month as int, date.day as int)
    &&& day_number(date.year as int, date.month as int, date.day as int) == unix as int / 86_400
    &&& date.hour as int == unix as int % 86_400 / 3600
    &&& date.minute as int == unix as int / 60 % 60
    &&& date.second as int == unix as int % 60
    &&& date.weekday as int == (unix as int / 86_400 + 3) % 7
}

/// The date and time `unix` seconds after 1970-01-01 00:00 UTC.
pub open spec fn date_of(unix: u64) -> DateTime {
    choose|date: DateTime| is_date_of(unix, date)
}

proof fn lemma_later_year(y: int, z: int)
    requires
        y < z,
    ensures
        year_start(y) + 365 <= year_start(z),
    decreases z - y,
{
    lemma_year_length(z - 1);
    if y < z - 1 {
        lemma_later_year(y, z - 1);
    }
}

/// No two dates have the same number.
pub proof fn dates_are_distinct(y: int, m: int, d: int, z: int, n: int, e: int)
    requires
        is_date(y, m, d),
        is_date(z, n, e),
        day_number(y, m, d) == day_number(z, n, e),
    ensures
        y == z && m == n && d == e,
{
    lemma_year_length(y);
    lemma_year_length(z);
    if y < z {
        if y + 1 < z {
            lemma_later_year(y + 1, z);
        }
        assert(year_start(y + 1) <= year_start(z));
        assert(false);
    } else if z < y {
        if z + 1 < y {
            lemma_later_year(z + 1, y);
        }
        assert(year_start(z + 1) <= year_start(y));
        assert(false);
    }
}

/// A time has one date.
pub proof fn date_is_unique(unix: u64, date: DateTime)
    requires
        is_date_of(unix, date),
    ensures
        date == date_of(unix),
{
    let other = date_of(unix);
    assert(is_date_of(unix, other));
    dates_are_distinct(
        date.year as int,
        date.month as int,
        date.day as int,
        other.year as int,
        other.month as int,
        other.day as int,
    );
}

proof fn lemma_year_bounds(unix: u64, date: DateTime)
    requires
        is_date_of(unix, date),
        unix + 366 * 86_400 <= i64::MAX,
    ensures
        0 <= date.year <= 0x80_0000_0000,
        forall|d: int| #[trigger]
            is_last_sunday(d, date.year as int, 3) ==> -400_000 <= d && d * 86_400 + 3600
                <= i64::MAX,
        forall|d: int| #[trigger]
            is_last_sunday(d, date.year as int, 10) ==> -400_000 <= d && d * 86_400 + 3600
                <= i64::MAX,
{
    let y = date.year as int;
    let days = unix as int / 86_400;
    lemma_year_length(y);
    if y < 1970 {
        if y + 1 < 1970 {
            lemma_later_year(y + 1, 1970);
        }
        assert(year_start(1970) == 0);
    }
    assert(y >= 1970);
    let past = y - 1;
    assert(365 * past <= year_start(y) + 719_162 + past / 100);
}

impl DateTime {
    /// The date and time `unix` seconds after 1970-01-01 00:00 UTC.
    pub fn from_unix(unix: u64) -> (r: Self)
        ensures
            is_date_of(unix, r),
    {
        let days: u64 = unix / 86_400;
        let seconds: u64 = unix % 86_400;
        // Eras of 400 years, counted from March so the leap day comes last; in them centuries,
        // runs of four years and years, the last of which may be a day longer.
        let z: u64 = days + 719_468;
        let era: u64 = z / 146_097;
        let doe: u64 = z % 146_097;
        let century: u64 = if doe / 36_524 < 3 {
            doe / 36_524
        } else {
            3
        };
        let doc: u64 = doe - 36_524 * century;
        let four: u64 = doc / 1461;
        let dof: u64 = doc % 1461;
        let one: u64 = if dof / 365 < 3 {
            dof / 365
        } else {
            3
        };
        let doy: u64 = dof - 365 * one;
        let yoe: u64 = 100 * century + 4 * four + one;
        let mp: u64 = (5 * doy + 2) / 153;
        let day: u64 = doy - (153 * mp + 2) / 5 + 1;
        let month: u64 = if mp < 10 {
            mp + 3
        } else {
            mp - 9
        };
        let year: u64 = yoe + era * 400 + (if month <= 2 {
            1
        } else {
            0
        });
        proof {
            lemma_years_of_era(doe as int, century as int, four as int, one as int);
            lemma_month_of_year(doy as int, mp as int);
            lemma_civil(year as int, month as int, day as int, era as int, yoe as int);
            lemma_leap_years(era as int, yoe as int);
            assert(day_number(year as int, month as int, day as int) == days);
            lemma_clock(unix as int);
        }
        DateTime {
            year: year as i64,
            month: month as u8,
            day: day as u8,
            hour: (seconds / 3600) as u8,
            minute: (seconds / 60 % 60) as u8,
            second: (seconds % 60) as u8,
            // 1970-01-01 was a Thursday.
            weekday: ((days + 3) % 7) as u8,
        }
    }

    /// As a FAT directory entry has it: the date (years since 1980, month, day) and the time
    /// (hours, minutes, seconds in twos). Dates outside FAT's 1980 to 2107 are clamped.
    pub open spec fn fat_fields(self) -> (u16, u16) {
        if self.year < 1980 {
            (33, 0)
        } else {
            let year: u16 = if self.year - 1980 < 127 {
                (self.year - 1980) as u16
            } else {
                127
            };
            (
                (year << 9u16) | ((self.month as u16) << 5u16) | (self.day as u16),
                ((self.hour as u16) << 11u16) | ((self.minute as u16) << 5u16) | (
                self.second as u16 / 2),
            )
        }
    }

    /// As a FAT directory entry has it: the date (years since 1980, month, day) and the time
    /// (hours, minutes, seconds in twos). Dates outside FAT's 1980 to 2107 are clamped.
    pub fn fat(&self) -> (r: (u16, u16))
        ensures
            r == self.fat_fields(),
    {
        if self.year < 1980 {
            return (33, 0);
        }
        let year: u16 = if self.year - 1980 < 127 {
            (self.year - 1980) as u16
        } else {
            127
        };
        (
            (year << 9u16) | ((self.month as u16) << 5u16) | (self.day as u16),
            ((self.hour as u16) << 11u16) | ((self.minute as u16) << 5u16) | (self.second as u16
                / 2),
        )
    }

    /// How it is shown, like "Thu 1970-01-01 00:00:00".
    pub open spec fn words(self) -> Seq<char> {
        weekday_word(self.weekday) + seq![' '] + signed(self.year) + seq!['-'] + padded(self.month)
            + seq!['-'] + padded(self.day) + seq![' '] + padded(self.hour) + seq![':'] + padded(
            self.minute,
        ) + seq![':'] + padded(self.second)
    }

    /// How it is shown, like "Thu 1970-01-01 00:00:00".
    pub fn to_string(&self) -> (r: String)
        requires
            self.weekday < 7,
        ensures
            r@ == self.words(),
    {
        let mut out = weekday_name(self.weekday).to_owned();
        out.push(' ');
        push_signed(&mut out, self.year);
        out.push('-');
        push_padded(&mut out, self.month);
        out.push('-');
        push_padded(&mut out, self.day);
        out.push(' ');
        push_padded(&mut out, self.hour);
        out.push(':');
        push_padded(&mut out, self.minute);
        out.push(':');
        push_padded(&mut out, self.second);
        assert(out@ =~= self.words());
        out
    }
}

/// A FAT date and time hold what they were packed from: seconds in twos.
pub proof fn fat_fields_hold_the_date(date: DateTime)
    requires
        1980 <= date.year <= 2107,
        date.month < 16,
        date.day < 32,
        date.hour < 32,
        date.minute < 64,
        date.second < 64,
    ensures
        date.fat_fields().0 / 512 + 1980 == date.year,
        date.fat_fields().0 / 32 % 16 == date.month,
        date.fat_fields().0 % 32 == date.day,
        date.fat_fields().1 / 2048 == date.hour,
        date.fat_fields().1 / 32 % 64 == date.minute,
        date.fat_fields().1 % 32 == date.second / 2,
{
    lemma_fat_bits(
        (date.year - 1980) as u16,
        date.month as u16,
        date.day as u16,
    );
    lemma_fat_time_bits(date.hour as u16, date.minute as u16, (date.second / 2) as u16);
}

proof fn lemma_fat_bits(year: u16, month: u16, day: u16)
    by (bit_vector)
    requires
        year < 128,
        month < 16,
        day < 32,
    ensures
        ((year << 9u16) | (month << 5u16) | day) / 512 == year,
        ((year << 9u16) | (month << 5u16) | day) / 32 % 16 == month,
        ((year << 9u16) | (month << 5u16) | day) % 32 == day,
{
}

proof fn lemma_fat_time_bits(hour: u16, minute: u16, half: u16)
    by (bit_vector)
    requires
        hour < 32,
        minute < 64,
        half < 32,
    ensures
        ((hour << 11u16) | (minute << 5u16) | half) / 2048 == hour,
        ((hour << 11u16) | (minute << 5u16) | half) / 32 % 64 == minute,
        ((hour << 11u16) | (minute << 5u16) | half) % 32 == half,
{
}

proof fn lemma_clock(unix: int)
    requires
        0 <= unix,
    ensures
        unix % 86_400 / 60 % 60 == unix / 60 % 60,
        unix % 86_400 % 60 == unix % 60,
        0 <= unix % 86_400 / 3600 < 24,
{
    let d = unix / 86_400;
    let s = unix % 86_400;
    assert(unix == 86_400 * d + s);
    assert(unix / 60 == 1440 * d + s / 60);
}

/// Where a day of an era is: in which year, and which day of it.
proof fn lemma_years_of_era(doe: int, century: int, four: int, one: int)
    requires
        0 <= doe < 146_097,
        century == if doe / 36_524 < 3 {
            doe / 36_524
        } else {
            3
        },
        four == (doe - 36_524 * century) / 1461,
        one == if (doe - 36_524 * century) % 1461 / 365 < 3 {
            (doe - 36_524 * century) % 1461 / 365
        } else {
            3
        },
    ensures
        ({
            let yoe = 100 * century + 4 * four + one;
            let doy = (doe - 36_524 * century) % 1461 - 365 * one;
            &&& 0 <= yoe < 400
            &&& 0 <= doy <= 365
            &&& doy == doe - (365 * yoe + yoe / 4 - yoe / 100)
            &&& doy == 365 ==> (yoe + 1) % 4 == 0 && ((yoe + 1) % 100 != 0 || (yoe + 1) % 400 == 0)
        }),
{
    let doc = doe - 36_524 * century;
    assert(0 <= doc <= 36_524);
    assert(0 <= four <= 24);
    let yoe = 100 * century + 4 * four + one;
    assert(yoe / 4 == 25 * century + four);
    assert(yoe / 100 == century);
}

/// Which month a day of a year that starts in March is in.
proof fn lemma_month_of_year(doy: int, mp: int)
    requires
        0 <= doy <= 365,
        mp == (5 * doy + 2) / 153,
    ensures
        0 <= mp <= 11,
        ({
            let day = doy - (153 * mp + 2) / 5 + 1;
            &&& 1 <= day <= 31
            &&& (mp == 1 || mp == 3 || mp == 6 || mp == 8) ==> day <= 30
            &&& mp == 11 ==> day <= 29
            &&& mp == 11 && doy < 365 ==> day <= 28
        }),
{
}

/// A year is as long in either count.
proof fn lemma_leap_years(era: int, yoe: int)
    requires
        0 <= era,
        0 <= yoe < 400,
    ensures
        is_leap_year(400 * era + yoe + 1) == ((yoe + 1) % 4 == 0 && ((yoe + 1) % 100 != 0 || (yoe
            + 1) % 400 == 0)),
{
    let y = 400 * era + yoe + 1;
    assert(y % 4 == (yoe + 1) % 4);
    assert(y % 100 == (yoe + 1) % 100);
    assert(y % 400 == (yoe + 1) % 400);
}

pub open spec fn weekday_word(weekday: u8) -> Seq<char> {
    if weekday == 0 {
        "Mon"@
    } else if weekday == 1 {
        "Tue"@
    } else if weekday == 2 {
        "Wed"@
    } else if weekday == 3 {
        "Thu"@
    } else if weekday == 4 {
        "Fri"@
    } else if weekday == 5 {
        "Sat"@
    } else {
        "Sun"@
    }
}

fn weekday_name(weekday: u8) -> (r: &'static str)
    ensures
        r@ == weekday_word(weekday),
{
    match weekday {
        0 => "Mon",
        1 => "Tue",
        2 => "Wed",
        3 => "Thu",
        4 => "Fri",
        5 => "Sat",
        _ => "Sun",
    }
}

/// `n` in decimal, with a `-` if it is negative.
pub open spec fn signed(n: i64) -> Seq<char> {
    if n < 0 {
        seq!['-'] + text::decimal((-n) as nat)
    } else {
        text::decimal(n as nat)
    }
}

fn push_signed(out: &mut String, n: i64)
    ensures
        final(out)@ == old(out)@ + signed(n),
{
    if n < 0 {
        out.push('-');
        push_decimal(out, (-1 - n) as u64 + 1);
    } else {
        push_decimal(out, n as u64);
    }
    assert(out@ =~= old(out)@ + signed(n));
}

/// `n` in decimal, with two digits at least.
pub open spec fn padded(n: u8) -> Seq<char> {
    if n < 10 {
        seq!['0'] + text::decimal(n as nat)
    } else {
        text::decimal(n as nat)
    }
}

/// Appends `n` in decimal, with two digits at least.
pub fn push_padded(out: &mut String, n: u8)
    ensures
        final(out)@ == old(out)@ + padded(n),
{
    if n < 10 {
        out.push('0');
    }
    push_decimal(out, n as u64);
    assert(out@ =~= old(out)@ + padded(n));
}

/// In Sweden, summer time is from 01:00 UTC on the last Sunday of March to 01:00 UTC on the last
/// Sunday of October: on days that are seven days or less before the month's end, and of
/// which every seventh before and after is a Sunday, 1970-01-04 among them.
pub proof fn summer_is_from_march_to_october(unix: int, year: int, march: int, october: int)
    requires
        24 < march <= 31,
        24 < october <= 31,
        (day_number(year, 3, march) - day_number(1970, 1, 4)) % 7 == 0,
        (day_number(year, 10, october) - day_number(1970, 1, 4)) % 7 == 0,
    ensures
        is_summer(unix, year) == (86_400 * day_number(year, 3, march) + 3600 <= unix < 86_400
            * day_number(year, 10, october) + 3600),
{
    let start = day_number(year, 3, march);
    let end = day_number(year, 10, october);
    assert(is_last_sunday(start, year, 3));
    assert(is_last_sunday(end, year, 10));
    lemma_sundays_unique(year, start, end);
}

/// The lengths of the months, by name, and which years are leap years.
pub proof fn months_have_their_lengths(year: int)
    ensures
        month_length(year, 1) == 31,
        month_length(year, 2) == (if year % 400 == 0 || (year % 4 == 0 && year % 100 != 0) {
            29int
        } else {
            28
        }),
        month_length(year, 3) == 31,
        month_length(year, 4) == 30,
        month_length(year, 5) == 31,
        month_length(year, 6) == 30,
        month_length(year, 7) == 31,
        month_length(year, 8) == 31,
        month_length(year, 9) == 30,
        month_length(year, 10) == 31,
        month_length(year, 11) == 30,
        month_length(year, 12) == 31,
{
}

/// A time is its date's midnight, and the hours, minutes and seconds since; the weekday goes on by
/// one every day, from Thursday 1970-01-01.
pub proof fn dates_add_up(unix: u64, date: DateTime)
    requires
        is_date_of(unix, date),
    ensures
        unix == 86_400 * day_number(date.year as int, date.month as int, date.day as int) + 3600
            * date.hour + 60 * date.minute + date.second,
        date.hour < 24 && date.minute < 60 && date.second < 60,
        date.weekday < 7,
        (date.weekday - 3 - day_number(date.year as int, date.month as int, date.day as int)) % 7
            == 0,
{
    lemma_clock(unix as int);
    let s = unix as int % 86_400;
    assert(s == 3600 * (s / 3600) + 60 * (s / 60 % 60) + s % 60);
}

} // verus!
