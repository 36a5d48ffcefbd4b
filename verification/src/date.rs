//! Calendar dates: day numbers, and the serials that spreadsheets count days in.
use crate::model::cell::DateTimeValue;
use vstd::prelude::*;

verus! {

/// Whether a year has a leap day.
pub open spec fn is_leap(y: int) -> bool {
    y % 4 == 0 && (y % 100 != 0 || y % 400 == 0)
}

/// How many days a month has.
pub open spec fn month_length(y: int, m: int) -> int {
    if m == 2 {
        if is_leap(y) {
            29
        } else {
            28
        }
    } else if m == 4 || m == 6 || m == 9 || m == 11 {
        30
    } else {
        31
    }
}

/// Whether a date exists in the Gregorian calendar.
pub open spec fn valid_date(y: int, m: int, d: int) -> bool {
    1 <= m <= 12 && 1 <= d <= month_length(y, m)
}

/// How many days of a year come before a month.
pub open spec fn days_before_month(y: int, m: int) -> int
    decreases m,
{
    if m <= 1 {
        0
    } else {
        days_before_month(y, m - 1) + month_length(y, m - 1)
    }
}

/// How many leap days the years 1 to `y` have; for earlier years, the negated
/// number of those from `y + 1` to 0.
pub open spec fn leap_days(y: int) -> int {
    y / 4 - y / 100 + y / 400
}

/// How many days lie between the first of January 1970 and the first of January
/// of a year.
pub open spec fn days_before_year(y: int) -> int {
    365 * (y - 1970) + leap_days(y - 1) - leap_days(1969)
}

/// The number of a date, counted in days from the first of January 1970.
pub open spec fn day_number(y: int, m: int, d: int) -> int {
    days_before_year(y) + days_before_month(y, m) + d - 1
}

/// A year is as long as its twelve months.
pub proof fn law_years_are_made_of_months(y: int)
    ensures
        days_before_year(y + 1) - days_before_year(y) == days_before_month(y, 13),
{
    reveal_with_fuel(days_before_month, 14);
    lemma_leap_day(y);
}

#[verifier::spinoff_prover]
#[verifier::rlimit(40)]
proof fn lemma_leap_day(y: int)
    ensures
        leap_days(y) - leap_days(y - 1) == if is_leap(y) {
            1int
        } else {
            0int
        },
{
    assert(y / 4 - (y - 1) / 4 == if y % 4 == 0 {
        1int
    } else {
        0int
    });
    assert(y / 100 - (y - 1) / 100 == if y % 100 == 0 {
        1int
    } else {
        0int
    });
    assert(y / 400 - (y - 1) / 400 == if y % 400 == 0 {
        1int
    } else {
        0int
    });
    assert(y % 400 == 0 ==> y % 100 == 0);
    assert(y % 100 == 0 ==> y % 4 == 0);
}

/// The day after a date has the next number.
pub proof fn law_next_day_has_next_number(y: int, m: int, d: int)
    requires
        valid_date(y, m, d),
    ensures
        d < month_length(y, m) ==> day_number(y, m, d + 1) == day_number(y, m, d) + 1,
        d == month_length(y, m) && m < 12 ==> day_number(y, m + 1, 1) == day_number(y, m, d) + 1,
        d == month_length(y, m) && m == 12 ==> day_number(y + 1, 1, 1) == day_number(y, m, d) + 1,
{
    law_years_are_made_of_months(y);
    if m == 12 {
        assert(days_before_month(y, 13) == days_before_month(y, 12) + month_length(y, 12));
        assert(days_before_month(y + 1, 1) == 0);
    }
}

proof fn lemma_months_add_up(y: int, m: int, n: int)
    requires
        1 <= m < n,
    ensures
        days_before_month(y, m) + month_length(y, m) <= days_before_month(y, n),
    decreases n,
{
    if m < n - 1 {
        lemma_months_add_up(y, m, n - 1);
    }
}

proof fn lemma_years_add_up(y: int, z: int)
    requires
        y < z,
    ensures
        days_before_year(y) + days_before_month(y, 13) <= days_before_year(z),
    decreases z - y,
{
    law_years_are_made_of_months(y);
    if y + 1 < z {
        lemma_years_add_up(y + 1, z);
        lemma_months_add_up(y + 1, 1, 13);
    }
}

/// Of two dates, the later has the greater number.
pub proof fn law_later_dates_have_greater_numbers(
    y: int,
    m: int,
    d: int,
    later_y: int,
    later_m: int,
    later_d: int,
)
    requires
        valid_date(y, m, d),
        valid_date(later_y, later_m, later_d),
        y < later_y || (y == later_y && (m < later_m || (m == later_m && d < later_d))),
    ensures
        day_number(y, m, d) < day_number(later_y, later_m, later_d),
{
    if y < later_y {
        lemma_years_add_up(y, later_y);
        lemma_months_add_up(y, m, 13);
        if later_m > 1 {
            lemma_months_add_up(later_y, 1, later_m);
        }
    } else if m < later_m {
        lemma_months_add_up(y, m, later_m);
    }
}

/// A day number belongs to one date only.
proof fn lemma_one_date(y: int, m: int, d: int, y2: int, m2: int, d2: int)
    requires
        valid_date(y, m, d),
        valid_date(y2, m2, d2),
        day_number(y, m, d) == day_number(y2, m2, d2),
    ensures
        y == y2 && m == m2 && d == d2,
{
    if y < y2 || (y == y2 && (m < m2 || (m == m2 && d < d2))) {
        law_later_dates_have_greater_numbers(y, m, d, y2, m2, d2);
    }
    if y2 < y || (y2 == y && (m2 < m || (m2 == m && d2 < d))) {
        law_later_dates_have_greater_numbers(y2, m2, d2, y, m, d);
    }
}

/// In years that begin in March, which day of an era's year a day is.
proof fn lemma_year_of_era(doe: u32)
    requires
        doe < 146_097,
    ensures
        ({
            let yoe = (doe - doe / 1460 + doe / 36_524 - doe / 146_096) / 365;
            &&& 0 <= yoe <= 399
            &&& 0 <= doe - (365 * yoe + yoe / 4 - yoe / 100) <= 365
            &&& doe - (365 * yoe + yoe / 4 - yoe / 100) == 365 ==> is_leap(yoe + 1)
        }),
{
    let c = doe as int / 36_524;
    let yoe = (doe - doe as int / 1460 + c - doe as int / 146_096) / 365;
    // Cut the era into centuries, and each of them into spans of four years.
    let century = if c == 4 {
        3int
    } else {
        c
    };
    let r = doe - 36_524 * century;
    assert(0 <= r <= 36_524);
    let q = r / 1461;
    let s = r - 1461 * q;
    assert(0 <= q <= 24 && 0 <= s < 1461);
    let n = if s == 1460 {
        3int
    } else {
        s / 365
    };
    lemma_year_in_span(doe as int, century, q, s, n);
}

proof fn lemma_year_in_span(doe: int, century: int, q: int, s: int, n: int)
    requires
        0 <= doe < 146_097,
        0 <= century <= 3,
        0 <= q <= 24,
        0 <= s < 1461,
        doe == 36_524 * century + 1461 * q + s,
        century < 3 ==> 1461 * q + s < 36_524,
        n == if s == 1460 {
            3int
        } else {
            s / 365
        },
    ensures
        ({
            let yoe = (doe - doe / 1460 + doe / 36_524 - doe / 146_096) / 365;
            &&& 0 <= yoe <= 399
            &&& 0 <= doe - (365 * yoe + yoe / 4 - yoe / 100) <= 365
            &&& doe - (365 * yoe + yoe / 4 - yoe / 100) == 365 ==> is_leap(yoe + 1)
        }),
{
    let y = 100 * century + 4 * q + n;
    let yoe = (doe - doe / 1460 + doe / 36_524 - doe / 146_096) / 365;
    assert(0 <= n <= 3);
    assert(0 <= y <= 399);
    let doy = doe - (365 * y + y / 4 - y / 100);
    assert(y / 4 == 25 * century + q);
    assert(y / 100 == century);
    assert(doy == s - 365 * n);
    assert(0 <= doy <= 365);
    assert(doe / 36_524 == century || (doe == 146_096 && doe / 36_524 == 4));
    let t = doe - doe / 1460 + doe / 36_524 - doe / 146_096;
    assert(365 * y <= t < 365 * y + 365) by {
        if doe == 146_096 {
            assert(century == 3 && q == 24 && s == 1460);
        } else {
            assert(doe / 146_096 == 0);
            assert(doe / 36_524 == century);
            // t = 365 y + doy + y / 4 - doe / 1460
            assert(t == 365 * y + doy + 25 * century + q - doe / 1460);
        }
    }
    assert(yoe == y);
    if doy == 365 {
        assert(n == 3 && s == 1460);
        assert((y + 1) == 100 * century + 4 * (q + 1));
        assert((y + 1) % 4 == 0);
        if q == 24 {
            assert(century == 3);
            assert(y + 1 == 400);
        } else {
            assert((y + 1) % 100 == 4 * (q + 1));
        }
    }
}

/// The months of a year that begins in March.
proof fn lemma_month_of_day(doy: int)
    requires
        0 <= doy <= 365,
    ensures
        ({
            let mp = (5 * doy + 2) / 153;
            let d = doy - (153 * mp + 2) / 5 + 1;
            &&& 0 <= mp <= 11
            &&& (153 * mp + 2) / 5 <= doy
            &&& 1 <= d <= 31
            &&& mp == 1 || mp == 3 || mp == 6 || mp == 8 ==> d <= 30
            &&& mp == 11 ==> d <= 29 && (d == 29 ==> doy == 365)
        }),
{
}

/// The first day of the first year that an `i32` can hold.
pub const FIRST_DAY: i64 = -784_353_015_833;

/// The last day of the last year that an `i32` can hold.
pub const LAST_DAY: i64 = 784_351_576_776;

/// A date in a year that an `i32` cannot hold has a number outside the limits.
proof fn lemma_year_fits(y: int, m: int, d: int)
    requires
        valid_date(y, m, d),
        FIRST_DAY <= day_number(y, m, d) <= LAST_DAY,
    ensures
        i32::MIN <= y <= i32::MAX,
{
    reveal_with_fuel(days_before_month, 13);
    if y < i32::MIN {
        law_later_dates_have_greater_numbers(y, m, d, i32::MIN as int, 1, 1);
    }
    if y > i32::MAX {
        law_later_dates_have_greater_numbers(i32::MAX as int, 12, 31, y, m, d);
    }
}

/// Converts a day number to a date.
pub fn civil_from_days(z: i64) -> (r: (i32, u8, u8))
    requires
        FIRST_DAY <= z <= LAST_DAY,
    ensures
        valid_date(r.0 as int, r.1 as int, r.2 as int),
        day_number(r.0 as int, r.1 as int, r.2 as int) == z,
{
    // Eras of 400 years that begin in March; shifted so that none is negative.
    let w: u64 = (z + 719_468 + 146_097 * 6_000_000) as u64;
    let era: i64 = (w / 146_097) as i64 - 6_000_000;
    let doe: u32 = (w % 146_097) as u32;
    proof {
        lemma_year_of_era(doe);
    }
    let yoe: u32 = (doe - doe / 1460 + doe / 36_524 - doe / 146_096) / 365;
    let doy: u32 = doe - (365 * yoe + yoe / 4 - yoe / 100);
    proof {
        lemma_month_of_day(doy as int);
    }
    let mp: u32 = (5 * doy + 2) / 153;
    let d: u32 = doy - (153 * mp + 2) / 5 + 1;
    let m: u32 = if mp < 10 {
        mp + 3
    } else {
        mp - 9
    };
    let march_year: i64 = yoe as i64 + era * 400;
    let y: i64 = if m <= 2 {
        march_year + 1
    } else {
        march_year
    };
    proof {
        lemma_civil(z as int, era as int, yoe as int, doy as int, mp as int, m as int, d as int);
        lemma_year_fits(y as int, m as int, d as int);
    }
    (y as i32, m as u8, d as u8)
}

#[verifier::spinoff_prover]
#[verifier::rlimit(40)]
proof fn lemma_civil(z: int, era: int, yoe: int, doy: int, mp: int, m: int, d: int)
    requires
        0 <= yoe <= 399,
        0 <= doy <= 365,
        doy == 365 ==> is_leap(yoe + 1),
        z + 719_468 == 146_097 * era + 365 * yoe + yoe / 4 - yoe / 100 + doy,
        mp == (5 * doy + 2) / 153,
        d == doy - (153 * mp + 2) / 5 + 1,
        m == if mp < 10 {
            mp + 3
        } else {
            mp - 9
        },
    ensures
        ({
            let y = yoe + era * 400 + if m <= 2 {
                1int
            } else {
                0int
            };
            valid_date(y, m, d) && day_number(y, m, d) == z
        }),
{
    lemma_month_of_day(doy);
    reveal_with_fuel(days_before_month, 13);
    let base = yoe + era * 400;
    assert(base / 4 == yoe / 4 + 100 * era);
    assert(base / 100 == yoe / 100 + 4 * era);
    assert(base / 400 == era);
    assert(leap_days(base) == yoe / 4 - yoe / 100 + 97 * era);
    lemma_leap_day(base);
    assert((base + 1) % 4 == (yoe + 1) % 4);
    assert((base + 1) % 100 == (yoe + 1) % 100);
    assert((base + 1) % 400 == (yoe + 1) % 400);
    assert(is_leap(base + 1) == is_leap(yoe + 1));
    assert(leap_days(1969) == 477);
    assert(z + 719_468 == 365 * base + leap_days(base) + doy);
    if mp == 0 {
    } else if mp == 1 {
    } else if mp == 2 {
    } else if mp == 3 {
    } else if mp == 4 {
    } else if mp == 5 {
    } else if mp == 6 {
    } else if mp == 7 {
    } else if mp == 8 {
    } else if mp == 9 {
    } else if mp == 10 {
    } else {
    }
}

/// The day number of day zero in the 1900 system, negated.
pub const EPOCH_OFFSET_1900: i64 = 25_569;

/// The day number of day zero in the 1904 system, negated.
pub const EPOCH_OFFSET_1904: i64 = 24_107;

/// The day number of day zero, negated.
pub open spec fn epoch_offset(date1904: bool) -> int {
    if date1904 {
        EPOCH_OFFSET_1904 as int
    } else {
        EPOCH_OFFSET_1900 as int
    }
}

/// The last serial that stands for a date, 31 December 9999.
pub const MAX_SERIAL: i64 = 2_958_465;

/// Whether a date is what a serial day stands for. In the 1900 system serial 60
/// is the 29th of February 1900, which never was, and the days before it are
/// counted one short.
pub open spec fn is_serial_date(serial_day: int, date1904: bool, y: int, m: int, d: int) -> bool {
    if date1904 {
        valid_date(y, m, d) && day_number(y, m, d) == serial_day - EPOCH_OFFSET_1904
    } else if serial_day == 60 {
        y == 1900 && m == 2 && d == 29
    } else {
        valid_date(y, m, d) && day_number(y, m, d) == serial_day - EPOCH_OFFSET_1900 + if 1
            <= serial_day < 60 {
            1int
        } else {
            0int
        }
    }
}

/// From March 1900 on, a date's serial in the 1904 system is 1462 less than in
/// the 1900 system.
pub proof fn law_date_systems_differ_by_a_constant(serial: int, y: int, m: int, d: int)
    requires
        serial > 60,
    ensures
        is_serial_date(serial, false, y, m, d) <==> is_serial_date(serial - 1462, true, y, m, d),
{
}

/// Whether a date lies `n` days from the beginning of a date system: the first of
/// January 1904, or 30 December 1899. In the latter, day 60 is the 29th of February
/// 1900, which never was, and the days from 1 to 59 lie one day later.
pub open spec fn is_days_from_epoch(n: int, date1904: bool, y: int, m: int, d: int) -> bool {
    if date1904 {
        valid_date(y, m, d) && day_number(y, m, d) - day_number(1904, 1, 1) == n
    } else if n == 60 {
        y == 1900 && m == 2 && d == 29
    } else if 1 <= n < 60 {
        valid_date(y, m, d) && day_number(y, m, d) - day_number(1899, 12, 31) == n
    } else {
        valid_date(y, m, d) && day_number(y, m, d) - day_number(1899, 12, 30) == n
    }
}

/// A serial day stands for the date that lies as many days from the beginning of its
/// date system.
pub proof fn law_serials_count_days(n: int, date1904: bool, y: int, m: int, d: int)
    ensures
        is_serial_date(n, date1904, y, m, d) <==> is_days_from_epoch(n, date1904, y, m, d),
{
    reveal_with_fuel(days_before_month, 13);
    assert(day_number(1904, 1, 1) == -24_107);
    assert(day_number(1899, 12, 30) == -25_569);
    assert(day_number(1899, 12, 31) == -25_568);
}

/// Converts a serial day to a date.
pub fn excel_serial_day_to_ymd(serial_day: i64, date1904: bool) -> (r: (i32, u8, u8))
    requires
        FIRST_DAY <= serial_day - epoch_offset(date1904) <= LAST_DAY,
    ensures
        is_serial_date(serial_day as int, date1904, r.0 as int, r.1 as int, r.2 as int),
{
    if date1904 {
        civil_from_days(serial_day - EPOCH_OFFSET_1904)
    } else if serial_day == 60 {
        (1900, 2, 29)
    } else if 1 <= serial_day && serial_day < 60 {
        civil_from_days(serial_day + 1 - EPOCH_OFFSET_1900)
    } else {
        civil_from_days(serial_day - EPOCH_OFFSET_1900)
    }
}

/// A date serial taken apart: its whole days, and its fraction of a day in
/// seconds, rounded.
#[derive(Debug, Clone, Copy, PartialEq, Eq, Structural)]
pub struct SerialParts {
    pub day: i64,
    pub seconds: i64,
}

/// Whether a serial stands for a date and time at all. On the last day only its
/// beginning does.
pub open spec fn in_serial_range(p: SerialParts) -> bool {
    (0 <= p.day < MAX_SERIAL && 0 <= p.seconds <= 86_400) || (p.day == MAX_SERIAL && p.seconds
        == 0)
}

/// In the 1900 system no serial stands for a date after the year 9999.
pub proof fn law_serials_end_with_the_year_9999(p: SerialParts, t: DateTimeValue)
    requires
        in_serial_range(p),
        is_serial_date_time(p, false, t),
    ensures
        t.year <= 9999,
{
    reveal_with_fuel(days_before_month, 13);
    if t.year > 9999 {
        law_later_dates_have_greater_numbers(
            9999,
            12,
            31,
            t.year as int,
            t.month as int,
            t.day as int,
        );
    }
}

/// Whether a date and time is what a serial stands for. A fraction that rounds
/// to a whole day counts as the next day.
pub open spec fn is_serial_date_time(p: SerialParts, date1904: bool, t: DateTimeValue) -> bool {
    let day = p.day + p.seconds / 86_400;
    let seconds = p.seconds % 86_400;
    &&& is_serial_date(day as int, date1904, t.year as int, t.month as int, t.day as int)
    &&& t.hour == seconds / 3600
    &&& t.minute == seconds / 60 % 60
    &&& t.second == seconds % 60
}

/// The date and time that a serial stands for.
pub open spec fn serial_date_time(p: SerialParts, date1904: bool) -> DateTimeValue {
    choose|t: DateTimeValue| is_serial_date_time(p, date1904, t)
}

/// A serial stands for one date and time only.
pub proof fn lemma_serial_date_time(p: SerialParts, date1904: bool, t: DateTimeValue)
    requires
        is_serial_date_time(p, date1904, t),
    ensures
        t == serial_date_time(p, date1904),
{
    let u = serial_date_time(p, date1904);
    assert(is_serial_date_time(p, date1904, u));
    let day = p.day + p.seconds / 86_400;
    if date1904 || day != 60 {
        lemma_one_date(
            t.year as int,
            t.month as int,
            t.day as int,
            u.year as int,
            u.month as int,
            u.day as int,
        );
    }
}

/// Converts a serial to a date and time.
pub fn serial_to_date_time(p: SerialParts, date1904: bool) -> (t: DateTimeValue)
    requires
        in_serial_range(p),
    ensures
        is_serial_date_time(p, date1904, t),
        t.hour < 24,
        t.minute < 60,
        t.second < 60,
{
    let carry: bool = p.seconds >= 86_400;
    let day: i64 = if carry {
        p.day + 1
    } else {
        p.day
    };
    let seconds: u64 = if carry {
        (p.seconds - 86_400) as u64
    } else {
        p.seconds as u64
    };
    let (year, month, dom) = excel_serial_day_to_ymd(day, date1904);
    DateTimeValue {
        year,
        month,
        day: dom,
        hour: (seconds / 3600) as u8,
        minute: (seconds / 60 % 60) as u8,
        second: (seconds % 60) as u8,
    }
}

/// A serial stands for the moment that lies as many days and seconds from the beginning
/// of its date system.
pub proof fn law_serials_count_seconds(p: SerialParts, date1904: bool, t: DateTimeValue)
    requires
        0 <= p.seconds <= 86_400,
        is_serial_date_time(p, date1904, t),
    ensures
        t.hour < 24 && t.minute < 60 && t.second < 60,
        exists|n: int| #[trigger]
            is_days_from_epoch(n, date1904, t.year as int, t.month as int, t.day as int) && n
                * 86_400 + t.hour * 3600 + t.minute * 60 + t.second == p.day * 86_400 + p.seconds,
{
    let n = p.day + p.seconds / 86_400;
    law_serials_count_days(n, date1904, t.year as int, t.month as int, t.day as int);
    assert(is_days_from_epoch(n, date1904, t.year as int, t.month as int, t.day as int));
}

/// The serials that stand for dates reach from the beginning of day zero to the
/// beginning of day 2 958 465, both of them among them.
pub proof fn law_serials_reach_to_the_last_day(p: SerialParts)
    requires
        0 <= p.seconds <= 86_400,
    ensures
        in_serial_range(p) <==> 0 <= p.day && p.day * 86_400 + p.seconds <= 2_958_465 * 86_400,
{
}

} // verus!
