//! Civil dates.

use vstd::prelude::*;

verus! {

/// A year with a leap day.
pub open spec fn leap(y: int) -> bool {
    y % 4 == 0 && (y % 100 != 0 || y % 400 == 0)
}

/// The days of a month.
pub open spec fn month_days(y: int, m: int) -> int {
    if m == 2 {
        if leap(y) {
            29
        } else {
            28
        }
    } else if m == 4 || m == 6 || m == 9 || m == 11 {
        30
    } else {
        31
    }
}

/// The days of a year before a month.
pub open spec fn days_before_month(y: int, m: int) -> int
    decreases m,
{
    if m <= 1 {
        0
    } else {
        days_before_month(y, m - 1) + month_days(y, m - 1)
    }
}

/// The days before a year, counted from the first day of the year 1.
pub open spec fn days_before_year(y: int) -> int {
    365 * (y - 1) + (y - 1) / 4 - (y - 1) / 100 + (y - 1) / 400
}

/// The days from the first of January 1970 to a date.
pub open spec fn day_number(y: int, m: int, d: int) -> int {
    days_before_year(y) + days_before_month(y, m) + (d - 1) - 719162
}

/// The date exists.
pub open spec fn valid_date(y: int, m: int, d: int) -> bool {
    1 <= m <= 12 && 1 <= d <= month_days(y, m)
}

/// The days of the years of an era before one, where years begin in March.
spec fn era_days(yoe: int) -> int {
    365 * yoe + yoe / 4 - yoe / 100
}

/// The year of an era that a day falls in.
proof fn year_of_era(doe: int)
    requires
        0 <= doe < 146097,
    ensures
        ({
            let yoe = (doe - doe / 1460 + doe / 36524 - doe / 146096) / 365;
            let doy = doe - era_days(yoe);
            &&& 0 <= yoe < 400
            &&& 0 <= doy <= 365
            &&& doy == 365 ==> (yoe + 1) % 4 == 0 && ((yoe + 1) % 100 != 0 || yoe == 399)
        }),
{
    let century = if doe == 146096 {
        3int
    } else {
        doe / 36524
    };
    let doc = doe - 36524 * century;
    assert(0 <= century <= 3);
    assert(0 <= doc <= 36524);
    let cycle = doc / 1461;
    let day = doc % 1461;
    assert(0 <= cycle <= 24);
    let year = if day == 1460 {
        3int
    } else {
        day / 365
    };
    assert(0 <= year <= 3);
    let y = 100 * century + 4 * cycle + year;
    let yoe = (doe - doe / 1460 + doe / 36524 - doe / 146096) / 365;
    assert(y / 4 == 25 * century + cycle);
    assert(y / 100 == century);
    let doy = doe - era_days(y);
    assert(doy == day - 365 * year);
    assert(0 <= doy <= 365);
    assert(yoe == y);
}

/// The days before the months of a year, in closed form for months that are
/// counted from March.
proof fn month_sums(y: int)
    ensures
        days_before_month(y, 1) == 0,
        days_before_month(y, 2) == 31,
        days_before_month(y, 3) == 31 + month_days(y, 2),
        days_before_month(y, 4) == 62 + month_days(y, 2),
        days_before_month(y, 5) == 92 + month_days(y, 2),
        days_before_month(y, 6) == 123 + month_days(y, 2),
        days_before_month(y, 7) == 153 + month_days(y, 2),
        days_before_month(y, 8) == 184 + month_days(y, 2),
        days_before_month(y, 9) == 215 + month_days(y, 2),
        days_before_month(y, 10) == 245 + month_days(y, 2),
        days_before_month(y, 11) == 276 + month_days(y, 2),
        days_before_month(y, 12) == 306 + month_days(y, 2),
{
    reveal_with_fuel(days_before_month, 13);
}

/// The days before a month that is counted from March.
spec fn march_offset(mp: int) -> int {
    (153 * mp + 2) / 5
}

/// The month, counted from March, that a day of the year falls in.
proof fn month_of_year(doy: int)
    requires
        0 <= doy <= 365,
    ensures
        ({
            let mp = (5 * doy + 2) / 153;
            &&& 0 <= mp <= 11
            &&& march_offset(mp) <= doy
            &&& mp < 11 ==> doy < march_offset(mp + 1)
        }),
{
}

/// The days of a year are those between two first days of January.
proof fn year_days(y: int)
    ensures
        days_before_year(y + 1) == days_before_year(y) + if leap(y) {
            366int
        } else {
            365int
        },
{
    assert((y - 1) / 4 == y / 4 - if y % 4 == 0 {
        1int
    } else {
        0
    });
    assert((y - 1) / 100 == y / 100 - if y % 100 == 0 {
        1int
    } else {
        0
    });
    assert((y - 1) / 400 == y / 400 - if y % 400 == 0 {
        1int
    } else {
        0
    });
    assert(y % 400 == 0 ==> y % 100 == 0);
    assert(y % 100 == 0 ==> y % 4 == 0);
}

/// The years of the eras before one, and of the era before a year.
proof fn era_years(era: int, yoe: int)
    requires
        0 <= yoe < 400,
    ensures
        days_before_year(400 * era + yoe + 1) == era_days(yoe) + 146097 * era,
        leap(400 * era + yoe + 1) == ((yoe + 1) % 4 == 0 && ((yoe + 1) % 100 != 0 || yoe == 399)),
{
    let y = 400 * era + yoe;
    assert(y / 4 == yoe / 4 + 100 * era);
    assert(y / 100 == yoe / 100 + 4 * era);
    assert(y / 400 == era);
    assert((y + 1) % 4 == (yoe + 1) % 4);
    assert((y + 1) % 100 == (yoe + 1) % 100);
    assert((y + 1) % 400 == (yoe + 1) % 400);
}

/// The date that a day of a year, counted from March, stands for.
proof fn date_of(march_year: int, doy: int)
    requires
        0 <= doy <= 365,
        doy == 365 ==> leap(march_year + 1),
    ensures
        ({
            let mp = (5 * doy + 2) / 153;
            let d = doy - march_offset(mp) + 1;
            let m = if mp < 10 {
                mp + 3
            } else {
                mp - 9
            };
            let y = if m <= 2 {
                march_year + 1
            } else {
                march_year
            };
            &&& 0 <= mp <= 11
            &&& march_offset(mp) <= doy
            &&& valid_date(y, m, d)
            &&& day_number(y, m, d) == days_before_year(march_year + 1) + doy - 719468
        }),
{
    month_of_year(doy);
    year_days(march_year);
    month_sums(march_year);
    month_sums(march_year + 1);
    let mp = (5 * doy + 2) / 153;
    assert(march_offset(0) == 0 && march_offset(1) == 31 && march_offset(2) == 61 && march_offset(3)
        == 92);
    assert(march_offset(4) == 122 && march_offset(5) == 153 && march_offset(6) == 184
        && march_offset(7) == 214);
    assert(march_offset(8) == 245 && march_offset(9) == 275 && march_offset(10) == 306
        && march_offset(11) == 337);
    let m = if mp < 10 {
        mp + 3
    } else {
        mp - 9
    };
    if mp < 10 {
        assert(days_before_month(march_year, m) == 31 + month_days(march_year, 2) + march_offset(
            mp,
        ));
    } else {
        assert(days_before_month(march_year + 1, m) == march_offset(mp) - 306);
    }
}

/// Convert days since the Unix epoch to (year, month, day).
pub fn epoch_days_to_ymd(days: i64) -> (date: (i64, u32, u32))
    requires
        days <= i64::MAX - 719468,
    ensures
        valid_date(date.0 as int, date.1 as int, date.2 as int),
        day_number(date.0 as int, date.1 as int, date.2 as int) == days,
{
    let z: i64 = days + 719468;
    let era: i64 = if z >= 0 {
        (z as u64 / 146097) as i64
    } else {
        -(((-(z + 1)) as u64 / 146097) as i64) - 1
    };
    proof {
        assert(era == z as int / 146097);
    }
    let doe: u64 = (z - era * 146097) as u64;
    let yoe: u64 = (doe - doe / 1460 + doe / 36524 - doe / 146096) / 365;
    proof {
        year_of_era(doe as int);
        era_years(era as int, yoe as int);
        date_of(400 * era + yoe, doe - era_days(yoe as int));
    }
    let march_year: i64 = yoe as i64 + era * 400;
    let doy: u64 = doe - (365 * yoe + yoe / 4 - yoe / 100);
    let mp: u64 = (5 * doy + 2) / 153;
    let d: u32 = (doy - (153 * mp + 2) / 5 + 1) as u32;
    let m: u32 = if mp < 10 {
        (mp + 3) as u32
    } else {
        (mp - 9) as u32
    };
    let y: i64 = if m <= 2 {
        march_year + 1
    } else {
        march_year
    };
    (y, m, d)
}

/// The first of January 1970 has the number zero.
pub proof fn epoch_is_zero()
    ensures
        valid_date(1970, 1, 1),
        day_number(1970, 1, 1) == 0,
{
    month_sums(1970);
}

/// The day after a date has the next number: it is the next day of the month, or the
/// first day of the next month, or the first day of the next year. A month has 31
/// days, but for those that have 30, and for February, which has 28, or 29 in every
/// fourth year that is no hundredth, and in every four hundredth.
pub proof fn day_after(y: int, m: int, d: int)
    requires
        1 <= m <= 12,
        1 <= d,
    ensures
        ({
            let long = y % 400 == 0 || y % 4 == 0 && y % 100 != 0;
            let last = if m == 4 || m == 6 || m == 9 || m == 11 {
                30int
            } else if m != 2 {
                31
            } else if long {
                29
            } else {
                28
            };
            &&& valid_date(y, m, d) <==> d <= last
            &&& d < last ==> day_number(y, m, d + 1) == day_number(y, m, d) + 1
            &&& d == last && m < 12 ==> day_number(y, m + 1, 1) == day_number(y, m, d) + 1
            &&& d == last && m == 12 ==> day_number(y + 1, 1, 1) == day_number(y, m, d) + 1
        }),
{
    month_sums(y);
    month_sums(y + 1);
    year_days(y);
    assert(days_before_month(y, m + 1) == days_before_month(y, m) + month_days(y, m));
}

/// A number stands for one date only, and a later date has a greater number.
pub proof fn later_is_greater(y: int, m: int, d: int, y2: int, m2: int, d2: int)
    requires
        valid_date(y, m, d),
        valid_date(y2, m2, d2),
        y < y2 || y == y2 && (m < m2 || m == m2 && d < d2),
    ensures
        day_number(y, m, d) < day_number(y2, m2, d2),
{
    month_sums(y);
    month_sums(y2);
    year_days(y);
    years_grow(y + 1, y2);
}

proof fn years_grow(y: int, y2: int)
    ensures
        y <= y2 ==> days_before_year(y) <= days_before_year(y2),
    decreases y2 - y,
{
    if y < y2 {
        year_days(y);
        years_grow(y + 1, y2);
    }
}

} // verus!
