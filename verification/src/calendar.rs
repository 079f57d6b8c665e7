//! Days and hours of UTC.
use vstd::prelude::*;

use crate::decimal;
use crate::text;
use crate::time::SystemTime;

verus! {

/// Whether a year of the Gregorian calendar has a leap day.
pub open spec fn is_leap(y: int) -> bool {
    y % 4 == 0 && (y % 100 != 0 || y % 400 == 0)
}

/// How many leap days a leap year has.
pub open spec fn leap_days(y: int) -> int {
    if is_leap(y) {
        1
    } else {
        0
    }
}

/// How many days of a common year lie before a month.
pub open spec fn days_before(m: int) -> int {
    if m == 1 {
        0
    } else if m == 2 {
        31
    } else if m == 3 {
        59
    } else if m == 4 {
        90
    } else if m == 5 {
        120
    } else if m == 6 {
        151
    } else if m == 7 {
        181
    } else if m == 8 {
        212
    } else if m == 9 {
        243
    } else if m == 10 {
        273
    } else if m == 11 {
        304
    } else if m == 12 {
        334
    } else {
        365
    }
}

/// How many days of a year lie before a month.
pub open spec fn days_before_month(y: int, m: int) -> int {
    days_before(m) + if m > 2 {
        leap_days(y)
    } else {
        0
    }
}

/// Whether there is such a date.
pub open spec fn is_date(y: int, m: int, d: int) -> bool {
    &&& 1 <= m <= 12
    &&& 1 <= d <= days_before_month(y, m + 1) - days_before_month(y, m)
}

/// How many days lie between the first day of the first year and that of another.
pub open spec fn days_before_year(y: int) -> int {
    365 * (y - 1) + (y - 1) / 4 - (y - 1) / 100 + (y - 1) / 400
}

/// The day number of a date: days since the first of January 1970.
pub open spec fn day_number(y: int, m: int, d: int) -> int {
    days_before_year(y) - days_before_year(1970) + days_before_month(y, m) + d - 1
}

/// Whether a date has a day number.
pub open spec fn falls_on(date: (int, int, int), days: int) -> bool {
    is_date(date.0, date.1, date.2) && day_number(date.0, date.1, date.2) == days
}

/// The date of a day number.
pub open spec fn civil_date(days: int) -> (int, int, int) {
    choose|date: (int, int, int)| falls_on(date, days)
}

/// A later year begins after an earlier one has ended.
#[verifier::spinoff_prover]
#[verifier::rlimit(40)]
proof fn lemma_years_follow(a: int, b: int)
    requires
        a < b,
    ensures
        days_before_year(a) + 365 + leap_days(a) <= days_before_year(b),
    decreases b - a,
{
    lemma_march(a);
    lemma_march(a + 1);
    assert(days_before_year(a + 1) == days_before_year(a) + 365 + leap_days(a)) by {
        assert(a / 4 - (a - 1) / 4 == if a % 4 == 0 {
            1int
        } else {
            0
        });
        assert(a / 100 - (a - 1) / 100 == if a % 100 == 0 {
            1int
        } else {
            0
        });
        assert(a / 400 - (a - 1) / 400 == if a % 400 == 0 {
            1int
        } else {
            0
        });
        assert(a % 400 == 0 ==> a % 100 == 0);
        assert(a % 100 == 0 ==> a % 4 == 0);
    }
    if a + 1 < b {
        lemma_years_follow(a + 1, b);
    }
}

/// A day has one date.
pub proof fn law_a_day_has_one_date(a: (int, int, int), b: (int, int, int), days: int)
    requires
        falls_on(a, days),
        falls_on(b, days),
    ensures
        a == b,
{
    if a.0 < b.0 {
        lemma_years_follow(a.0, b.0);
    } else if b.0 < a.0 {
        lemma_years_follow(b.0, a.0);
    }
}

/// Every day has a date.
pub proof fn law_every_day_has_a_date(days: int)
    ensures
        falls_on(civil_date(days), days),
{
    let z = days + 719_468;
    let era = z / 146_097;
    let doe = z - era * 146_097;
    let yoe = (doe - doe / 1460 + doe / 36_524 - doe / 146_096) / 365;
    lemma_year_of_era(doe);
    let doy = doe - (365 * yoe + yoe / 4 - yoe / 100);
    lemma_month(era, yoe, doy);
    assert(falls_on((year_of(era, yoe, doy), month_of(doy), day_of(doy)), days));
}

/// Whether a date comes before another.
pub open spec fn date_before(a: (int, int, int), b: (int, int, int)) -> bool {
    a.0 < b.0 || (a.0 == b.0 && (a.1 < b.1 || (a.1 == b.1 && a.2 < b.2)))
}

/// Dates are in the order of the days.
pub proof fn law_dates_follow_the_days(a: int, b: int)
    requires
        a < b,
    ensures
        date_before(civil_date(a), civil_date(b)),
{
    law_every_day_has_a_date(a);
    law_every_day_has_a_date(b);
    let x = civil_date(a);
    let y = civil_date(b);
    if y.0 < x.0 {
        lemma_years_follow(y.0, x.0);
    }
}

/// The last day that a date is written for in four digits of a year.
pub const LAST_DAY: i64 = 2_932_896;

/// A day from the epoch on has a year of four digits, up to the last of them.
proof fn lemma_four_digits(days: int)
    requires
        0 <= days <= LAST_DAY,
    ensures
        1970 <= civil_date(days).0 <= 9999,
        1 <= civil_date(days).1 <= 12,
        1 <= civil_date(days).2 <= 31,
{
    law_every_day_has_a_date(days);
    let date = civil_date(days);
    assert(days_before_year(1970) == 719_162);
    assert(days_before_year(10_000) == 3_652_059);
    if date.0 < 1970 {
        lemma_years_follow(date.0, 1970);
    }
    if date.0 > 10_000 {
        lemma_years_follow(10_000, date.0);
    }
}

/// Dates are written in the order of the days, all at one length.
pub proof fn law_written_dates_follow_the_days(a: int, b: int)
    requires
        0 <= a < b <= LAST_DAY,
    ensures
        text::text_before(date_text(civil_date(a)), date_text(civil_date(b))),
{
    law_dates_follow_the_days(a, b);
    lemma_date_text(a);
    lemma_date_text(b);
    let x = civil_date(a);
    let y = civil_date(b);
    lemma_four_digits(a);
    lemma_four_digits(b);
    lemma_small_powers();
    let year_x = text::padded_number_text(x.0 as nat, 4);
    let year_y = text::padded_number_text(y.0 as nat, 4);
    let month_x = text::padded_number_text(x.1 as nat, 2);
    let month_y = text::padded_number_text(y.1 as nat, 2);
    let day_x = text::padded_number_text(x.2 as nat, 2);
    let day_y = text::padded_number_text(y.2 as nat, 2);
    let dash = seq!['-'];
    text::lemma_padded_width(x.0 as nat, 4);
    text::lemma_padded_width(y.0 as nat, 4);
    text::lemma_padded_width(x.1 as nat, 2);
    text::lemma_padded_width(y.1 as nat, 2);
    let rest_x = dash + month_x + dash + day_x;
    let rest_y = dash + month_y + dash + day_y;
    assert(date_text(x) =~= year_x + rest_x);
    assert(date_text(y) =~= year_y + rest_y);
    if x.0 < y.0 {
        text::lemma_padded_in_order(x.0 as nat, y.0 as nat, 4);
        text::lemma_beginning_decides(year_x, year_y, rest_x, rest_y);
    } else {
        text::lemma_common_beginning(year_x, rest_x, rest_y);
        let tail_x = dash + day_x;
        let tail_y = dash + day_y;
        assert(rest_x =~= dash + (month_x + tail_x));
        assert(rest_y =~= dash + (month_y + tail_y));
        text::lemma_common_beginning(dash, month_x + tail_x, month_y + tail_y);
        if x.1 < y.1 {
            text::lemma_padded_in_order(x.1 as nat, y.1 as nat, 2);
            text::lemma_beginning_decides(month_x, month_y, tail_x, tail_y);
        } else {
            text::lemma_common_beginning(month_x, tail_x, tail_y);
            text::lemma_padded_in_order(x.2 as nat, y.2 as nat, 2);
            text::lemma_common_beginning(dash, day_x, day_y);
        }
    }
}

proof fn lemma_small_powers()
    ensures
        decimal::pow10(2) == 100,
        decimal::pow10(4) == 10_000,
{
    reveal_with_fuel(decimal::pow10, 5);
}

/// A date is written in ten characters, all of them digits or dashes.
pub proof fn lemma_date_text(days: int)
    requires
        0 <= days <= LAST_DAY,
    ensures
        date_text(civil_date(days)).len() == 10,
        forall|i: int|
            0 <= i < 10 ==> ('0' <= #[trigger] date_text(civil_date(days))[i] && date_text(
                civil_date(days),
            )[i] <= '9') || date_text(civil_date(days))[i] == '-',
{
    lemma_four_digits(days);
    lemma_small_powers();
    let date = civil_date(days);
    text::lemma_padded_width(date.0 as nat, 4);
    text::lemma_padded_width(date.1 as nat, 2);
    text::lemma_padded_width(date.2 as nat, 2);
}

/// The date of a day number. Years are counted from March, which puts the leap
/// day last.
pub fn civil_from_days(days: i64) -> (date: (i64, u32, u32))
    requires
        -4_000_000_000_000_000_000 <= days <= 4_000_000_000_000_000_000,
    ensures
        is_date(date.0 as int, date.1 as int, date.2 as int),
        day_number(date.0 as int, date.1 as int, date.2 as int) == days,
        civil_date(days as int) == (date.0 as int, date.1 as int, date.2 as int),
{
    let z: i64 = days + 719_468;
    let era: i64 = if z >= 0 {
        z / 146_097
    } else {
        -((146_096 - z) / 146_097)
    };
    assert(0 <= z - era * 146_097 < 146_097);
    let doe: i64 = z - era * 146_097;
    let yoe: i64 = (doe - doe / 1460 + doe / 36_524 - doe / 146_096) / 365;
    proof {
        lemma_year_of_era(doe as int);
    }
    let doy: i64 = doe - (365 * yoe + yoe / 4 - yoe / 100);
    let mp: i64 = (5 * doy + 2) / 153;
    proof {
        lemma_month(era as int, yoe as int, doy as int);
        lemma_month_table(doy as int);
    }
    let d: i64 = doy - (153 * mp + 2) / 5 + 1;
    let m: i64 = if mp < 10 {
        mp + 3
    } else {
        mp - 9
    };
    let y: i64 = yoe + era * 400 + if m <= 2 {
        1
    } else {
        0
    };
    proof {
        let date = (y as int, m as int, d as int);
        assert(falls_on(date, days as int));
        law_a_day_has_one_date(civil_date(days as int), date, days as int);
    }
    (y, m as u32, d as u32)
}

/// A date as `YYYY-MM-DD`.
pub open spec fn date_text(date: (int, int, int)) -> Seq<char> {
    text::padded_number_text(date.0 as nat, 4) + seq!['-'] + text::padded_number_text(
        date.1 as nat,
        2,
    ) + seq!['-'] + text::padded_number_text(date.2 as nat, 2)
}

/// The whole seconds since the epoch that a reading shows; none before it.
pub open spec fn unix_seconds(wall: int) -> int {
    if wall < 0 {
        0
    } else {
        wall / 1_000_000_000
    }
}

/// The date that a reading shows, in UTC.
pub open spec fn date_at(wall: int) -> Seq<char> {
    date_text(civil_date(unix_seconds(wall) / 86_400))
}

/// The hour of the day that a reading shows, in UTC.
pub open spec fn hour_at(wall: int) -> int {
    unix_seconds(wall) % 86_400 / 3600
}

/// `YYYY-MM-DD` and the hour, in UTC.
pub fn date_hour(at: SystemTime) -> (r: (String, u32))
    ensures
        r.0@ == date_at(at@),
        r.1 == hour_at(at@),
        r.1 < 24,
{
    let secs: u64 = at.since_epoch().as_secs();
    let days: i64 = (secs / 86_400) as i64;
    let hour: u32 = (secs % 86_400 / 3600) as u32;
    let (y, m, d) = civil_from_days(days);
    proof {
        if y < 1 {
            lemma_years_follow(y as int, 1970);
        }
    }
    let mut out: Vec<char> = text::padded_number_chars(y as u128, 4);
    out.push('-');
    text::push_all(&mut out, &text::padded_number_chars(m as u128, 2));
    out.push('-');
    text::push_all(&mut out, &text::padded_number_chars(d as u128, 2));
    assert(out@ =~= date_at(at@));
    (text::text_of(&out), hour)
}

/// The year of a day within four hundred years, and the day of that year.
proof fn lemma_year_of_era(doe: int)
    requires
        0 <= doe < 146_097,
    ensures
        ({
            let yoe = (doe - doe / 1460 + doe / 36_524 - doe / 146_096) / 365;
            let doy = doe - (365 * yoe + yoe / 4 - yoe / 100);
            &&& 0 <= yoe <= 399
            &&& 0 <= doy <= 365
            &&& doy == 365 ==> is_leap(yoe + 1)
        }),
{
}

/// Counting from March, the leap days up to a year are those up to its end.
proof fn lemma_march(y: int)
    ensures
        days_before_year(y) + 59 + leap_days(y) == 365 * y - 306 + y / 4 - y / 100 + y / 400,
{
    assert((y - 1) / 4 == y / 4 - if y % 4 == 0 {
        1int
    } else {
        0
    });
    assert((y - 1) / 100 == y / 100 - if y % 100 == 0 {
        1int
    } else {
        0
    });
    assert((y - 1) / 400 == y / 400 - if y % 400 == 0 {
        1int
    } else {
        0
    });
    assert(y % 400 == 0 ==> y % 100 == 0);
    assert(y % 100 == 0 ==> y % 4 == 0);
}

/// A year's day number does not depend on the era but for whole eras.
proof fn lemma_era(era: int, yoe: int)
    requires
        0 <= yoe <= 399,
    ensures
        ({
            let y = yoe + era * 400;
            y / 4 - y / 100 + y / 400 == yoe / 4 - yoe / 100 + 97 * era
        }),
        is_leap(yoe + era * 400 + 1) == is_leap(yoe + 1),
{
    let y = yoe + era * 400;
    assert(y / 4 == yoe / 4 + 100 * era);
    assert(y / 100 == yoe / 100 + 4 * era);
    assert(y / 400 == era);
    assert((y + 1) % 4 == (yoe + 1) % 4);
    assert((y + 1) % 100 == (yoe + 1) % 100);
    assert((y + 1) % 400 == (yoe + 1) % 400);
}

/// The months of a year that begins in March.
proof fn lemma_month_table(doy: int)
    requires
        0 <= doy <= 365,
    ensures
        ({
            let mp = (5 * doy + 2) / 153;
            let start = (153 * mp + 2) / 5;
            &&& 0 <= mp <= 11
            &&& start <= doy
            &&& mp < 10 ==> start == days_before(mp + 3) - 59 && doy - start < days_before(mp + 4)
                - days_before(mp + 3)
            &&& mp == 10 ==> start == 306 && doy - start < 31
            &&& mp == 11 ==> start == 337 && doy - start < 29
        }),
{
    let mp = (5 * doy + 2) / 153;
    if doy < 31 {
        assert(mp == 0 && (153 * mp + 2) / 5 == 0);
    } else if doy < 61 {
        assert(mp == 1 && (153 * mp + 2) / 5 == 31);
    } else if doy < 92 {
        assert(mp == 2 && (153 * mp + 2) / 5 == 61);
    } else if doy < 122 {
        assert(mp == 3 && (153 * mp + 2) / 5 == 92);
    } else if doy < 153 {
        assert(mp == 4 && (153 * mp + 2) / 5 == 122);
    } else if doy < 184 {
        assert(mp == 5 && (153 * mp + 2) / 5 == 153);
    } else if doy < 214 {
        assert(mp == 6 && (153 * mp + 2) / 5 == 184);
    } else if doy < 245 {
        assert(mp == 7 && (153 * mp + 2) / 5 == 214);
    } else if doy < 275 {
        assert(mp == 8 && (153 * mp + 2) / 5 == 245);
    } else if doy < 306 {
        assert(mp == 9 && (153 * mp + 2) / 5 == 275);
    } else if doy < 337 {
        assert(mp == 10 && (153 * mp + 2) / 5 == 306);
    } else if doy < 366 {
        assert(mp == 11 && (153 * mp + 2) / 5 == 337);
    }
}

/// The date of a day of a year that begins in March.
proof fn lemma_month(era: int, yoe: int, doy: int)
    requires
        0 <= yoe <= 399,
        0 <= doy <= 365,
        doy == 365 ==> is_leap(yoe + 1),
    ensures
        0 <= (5 * doy + 2) / 153 <= 11,
        is_date(year_of(era, yoe, doy), month_of(doy), day_of(doy)),
        day_number(year_of(era, yoe, doy), month_of(doy), day_of(doy)) == 146_097 * era + 365 * yoe
            + yoe / 4 - yoe / 100 + doy - 719_468,
{
    let y = yoe + era * 400;
    lemma_month_table(doy);
    lemma_era(era, yoe);
    lemma_march(y);
    lemma_march(y + 1);
    assert(days_before_year(1970) == 719_162);
    assert(days_before_year(y + 1) == days_before_year(y) + 365 + leap_days(y)) by {
        assert((y - 1) / 4 == y / 4 - if y % 4 == 0 {
            1int
        } else {
            0
        });
        assert((y - 1) / 100 == y / 100 - if y % 100 == 0 {
            1int
        } else {
            0
        });
        assert((y - 1) / 400 == y / 400 - if y % 400 == 0 {
            1int
        } else {
            0
        });
        assert(y % 400 == 0 ==> y % 100 == 0);
        assert(y % 100 == 0 ==> y % 4 == 0);
    }
}

/// The month of a day of a year that begins in March.
spec fn month_of(doy: int) -> int {
    let mp = (5 * doy + 2) / 153;
    if mp < 10 {
        mp + 3
    } else {
        mp - 9
    }
}

/// The day within its month.
spec fn day_of(doy: int) -> int {
    doy - (153 * ((5 * doy + 2) / 153) + 2) / 5 + 1
}

/// The year of a day of a year that begins in March.
spec fn year_of(era: int, yoe: int, doy: int) -> int {
    yoe + era * 400 + if month_of(doy) <= 2 {
        1int
    } else {
        0
    }
}

/// The date and the hour of a reading are those it lies in: whole days from the
/// epoch, then whole hours, and less than an hour besides.
pub proof fn law_a_reading_lies_in_its_hour(wall: int)
    requires
        wall >= 0,
    ensures
        0 <= hour_at(wall) < 24,
        ({
            let days = wall / 86_400_000_000_000;
            let start = (days * 24 + hour_at(wall)) * 3_600_000_000_000;
            start <= wall < start + 3_600_000_000_000
        }),
        date_at(wall) == date_text(civil_date(wall / 86_400_000_000_000)),
{
    assert(wall / 1_000_000_000 / 86_400 == wall / 86_400_000_000_000);
}

/// A year has 366 days where it is a leap year and 365 otherwise, every fourth year
/// is one but for three in four hundred, and four hundred years are 146,097 days.
pub proof fn law_a_year_has_its_days(y: int)
    ensures
        day_number(y + 1, 1, 1) - day_number(y, 1, 1) == (if is_leap(y) {
            366int
        } else {
            365
        }),
        day_number(y + 400, 1, 1) - day_number(y, 1, 1) == 146_097,
        is_leap(y) ==> y % 4 == 0,
        y % 4 == 0 && y % 100 != 0 ==> is_leap(y),
        y % 100 == 0 ==> (is_leap(y) <==> y % 400 == 0),
        day_number(1970, 1, 1) == 0,
{
    lemma_next_multiple(y, 4);
    lemma_next_multiple(y, 100);
    lemma_next_multiple(y, 400);
    assert((y + 399) / 4 == (y - 1) / 4 + 100);
    assert((y + 399) / 100 == (y - 1) / 100 + 4);
    assert((y + 399) / 400 == (y - 1) / 400 + 1);
    assert(y % 400 == 0 ==> y % 100 == 0);
    assert(y % 100 == 0 ==> y % 4 == 0);
}

/// A multiple is passed where one is reached.
proof fn lemma_next_multiple(y: int, n: int)
    requires
        n == 4 || n == 100 || n == 400,
    ensures
        y / n - (y - 1) / n == (if y % n == 0 {
            1int
        } else {
            0
        }),
{
    if n == 4 {
        assert(y / 4 - (y - 1) / 4 == (if y % 4 == 0 {
            1int
        } else {
            0
        }));
    } else if n == 100 {
        assert(y / 100 - (y - 1) / 100 == (if y % 100 == 0 {
            1int
        } else {
            0
        }));
    } else {
        assert(y / 400 - (y - 1) / 400 == (if y % 400 == 0 {
            1int
        } else {
            0
        }));
    }
}

} // verus!
