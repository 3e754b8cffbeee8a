//! Civil dates, day counts and the drawing cadence.
use crate::draw::Draw;
use crate::text::{
    chars_of, read_signed, read_unsigned, split_at, text_of, trim, write_decimal,
};
use vstd::prelude::*;

verus! {

use crate::draw::{views, DrawView};
use crate::text::{
    all_digits,
    contents,
    decimal,
    decimal_value,
    digit,
    is_digit,
    lemma_decimal,
    lemma_split_around,
    lemma_split_single,
    signed,
    split,
    trimmed,
    unsigned,
};
use vstd::arithmetic::div_mod::{lemma_fundamental_div_mod, lemma_fundamental_div_mod_converse};

pub open spec fn is_leap(y: int) -> bool {
    y % 4 == 0 && (y % 100 != 0 || y % 400 == 0)
}

/// The number of days of a month of 1 to 12.
pub open spec fn month_length(y: int, m: int) -> int {
    if m == 2 {
        if is_leap(y) {
            29
        } else {
            28
        }
    } else if m == 4 || m == 6 || m == 9 || m == 11 {
        30
    } else {
        31
    }
}

/// A date that the Gregorian calendar has.
pub open spec fn valid_date(y: int, m: int, d: int) -> bool {
    1 <= m <= 12 && 1 <= d <= month_length(y, m)
}

/// The date after a date of the calendar.
pub open spec fn next_date(y: int, m: int, d: int) -> (int, int, int) {
    if d < month_length(y, m) {
        (y, m, d + 1)
    } else if m < 12 {
        (y, m + 1, 1)
    } else {
        (y + 1, 1, 1)
    }
}

/// Days from 1970-01-01 to a date. Years are counted from March on, so that the
/// leap day is the last of its year, and the months from March on have 31, 30,
/// 31, 30, 31 days over and over.
pub open spec fn day_number(y: int, m: int, d: int) -> int {
    let year = if m <= 2 {
        y - 1
    } else {
        y
    };
    let month = if m <= 2 {
        m + 9
    } else {
        m - 3
    };
    365 * year + year / 4 - year / 100 + year / 400 + (153 * month + 2) / 5 + d - 1 - 719468
}

/// The day count starts at 1970-01-01 and grows by one with each date of the
/// calendar.
pub proof fn law_day_number_counts_days(y: int, m: int, d: int)
    requires
        valid_date(y, m, d),
    ensures
        day_number(1970, 1, 1) == 0,
        ({
            let next = next_date(y, m, d);
            &&& valid_date(next.0, next.1, next.2)
            &&& day_number(next.0, next.1, next.2) == day_number(y, m, d) + 1
        }),
{
}

/// The quotients of a year are those of its cycle of 400 years and of the year in
/// that cycle.
proof fn lemma_quotients_of_cycle(year: int, cycle: int, of_cycle: int)
    requires
        year == 400 * cycle + of_cycle,
        0 <= of_cycle < 400,
    ensures
        year / 4 == 100 * cycle + of_cycle / 4,
        year / 100 == 4 * cycle + of_cycle / 100,
        year / 400 == cycle,
{
    lemma_fundamental_div_mod(of_cycle, 4);
    lemma_fundamental_div_mod(of_cycle, 100);
    lemma_fundamental_div_mod_converse(year, 4, 100 * cycle + of_cycle / 4, of_cycle % 4);
    lemma_fundamental_div_mod_converse(year, 100, 4 * cycle + of_cycle / 100, of_cycle % 100);
    lemma_fundamental_div_mod_converse(year, 400, cycle, of_cycle);
}

/// Days since 1970-01-01, in a type that holds the count of every date.
fn count_days(y: i64, m: u32, d: u32) -> (days: i128)
    ensures
        days == day_number(y as int, m as int, d as int),
{
    let year: i128 = if m <= 2 {
        y as i128 - 1
    } else {
        y as i128
    };
    let cycle: i128 = year.checked_div_euclid(400).unwrap();
    let of_cycle: i128 = year - cycle * 400;
    proof {
        lemma_fundamental_div_mod(year as int, 400);
        lemma_quotients_of_cycle(year as int, cycle as int, of_cycle as int);
    }
    let month: i128 = if m > 2 {
        m as i128 - 3
    } else {
        m as i128 + 9
    };
    let of_year: i128 = (153 * month + 2) / 5 + d as i128 - 1;
    let of_days: i128 = of_cycle * 365 + of_cycle / 4 - of_cycle / 100 + of_year;
    cycle * 146097 + of_days - 719468
}

/// Days since 1970-01-01 for a civil date.
pub fn days_from_civil(y: i64, m: u32, d: u32) -> (days: i64)
    requires
        i64::MIN <= day_number(y as int, m as int, d as int) <= i64::MAX,
    ensures
        days == day_number(y as int, m as int, d as int),
{
    count_days(y, m, d) as i64
}

/// The year and the day of the year, both counted from March on, of a day of a
/// cycle of 400 years.
proof fn lemma_year_of_cycle(doe: int, yoe: int, doy: int)
    requires
        0 <= doe < 146097,
        yoe == (doe - doe / 1460 + doe / 36524 - doe / 146096) / 365,
        doy == doe - (365 * yoe + yoe / 4 - yoe / 100),
    ensures
        0 <= yoe < 400,
        0 <= doy <= 365,
        doy == 365 ==> is_leap(yoe + 1),
{
    let c = if doe / 36524 >= 3 {
        3
    } else {
        doe / 36524
    };
    let of_century = doe - 36524 * c;
    let k = of_century / 1461;
    let of_four = of_century - 1461 * k;
    let j = if of_four / 365 >= 3 {
        3
    } else {
        of_four / 365
    };
    let t = of_four - 365 * j;
    let e: int = if 24 * c + k + 365 * j + t >= 1460 {
        1
    } else {
        0
    };
    let q = 100 * c + 4 * k + j;
    assert(0 <= c <= 3 && 0 <= of_century <= 36524 && (c < 3 ==> of_century < 36524));
    assert(0 <= k <= 24 && 0 <= of_four <= 1460);
    assert(0 <= j <= 3 && 0 <= t <= 365 && (j < 3 ==> t < 365));
    assert(doe == 36524 * c + 1461 * k + 365 * j + t);
    assert(doe / 1460 == 25 * c + k + e);
    assert(doe / 36524 - doe / 146096 == c);
    assert(0 <= t - e <= 364);
    assert(doe - doe / 1460 + doe / 36524 - doe / 146096 == 365 * q + (t - e));
    assert(yoe == q);
    assert(q / 4 == 25 * c + k);
    assert(q / 100 == c);
    assert(doy == t);
    if t == 365 {
        assert(k < 24 || c == 3);
        assert((q + 1) % 4 == 0);
        assert(k < 24 ==> (q + 1) % 100 != 0);
        assert(k == 24 ==> q + 1 == 400);
    }
}

/// The month, counted from March on, and the day of the month of a day of the
/// year.
proof fn lemma_month_of_year(doy: int, mp: int, d: int)
    requires
        0 <= doy <= 365,
        mp == (5 * doy + 2) / 153,
        d == doy - (153 * mp + 2) / 5 + 1,
    ensures
        0 <= mp <= 11,
        1 <= d <= 31,
        mp == 1 || mp == 3 || mp == 6 || mp == 8 ==> d <= 30,
        mp == 11 ==> d <= 29 && (d == 29 ==> doy == 365),
{
}

/// The date put together from its cycle, year, month and day.
proof fn lemma_date_of_parts(era: int, doe: int, yoe: int, doy: int, mp: int, d: int)
    requires
        0 <= doe < 146097,
        0 <= yoe < 400,
        0 <= doy <= 365,
        doy == 365 ==> is_leap(yoe + 1),
        doy == doe - (365 * yoe + yoe / 4 - yoe / 100),
        mp == (5 * doy + 2) / 153,
        d == doy - (153 * mp + 2) / 5 + 1,
    ensures
        ({
            let y = yoe + era * 400;
            let m = if mp < 10 {
                mp + 3
            } else {
                mp - 9
            };
            let civil_y = if m <= 2 {
                y + 1
            } else {
                y
            };
            &&& valid_date(civil_y, m, d)
            &&& day_number(civil_y, m, d) == era * 146097 + doe - 719468
        }),
{
    lemma_month_of_year(doy, mp, d);
    let y = yoe + era * 400;
    assert(y / 4 == yoe / 4 + 100 * era);
    assert(y / 100 == yoe / 100 + 4 * era);
    assert(y / 400 == era);
    assert((y + 1) % 4 == (yoe + 1) % 4);
    assert((y + 1) % 100 == (yoe + 1) % 100);
    assert((y + 1) % 400 == (yoe + 1) % 400);
    assert(is_leap(yoe + 1) == is_leap(y + 1));
}

/// Inverse of `days_from_civil`.
pub fn civil_from_days(z: i64) -> (date: (i64, u32, u32))
    requires
        z + 719468 <= i64::MAX,
    ensures
        valid_date(date.0 as int, date.1 as int, date.2 as int),
        day_number(date.0 as int, date.1 as int, date.2 as int) == z,
        forall|y: int, m: int, d: int|
            valid_date(y, m, d) && #[trigger] day_number(y, m, d) == z ==> date.0 == y && date.1
                == m && date.2 == d,
{
    let ghost given = z as int;
    let z: i64 = z + 719468;
    let era: i64 = z.checked_div_euclid(146097).unwrap();
    let doe: u32 = z.checked_rem_euclid(146097).unwrap() as u32;
    assert(z == era * 146097 + doe);
    let yoe: u32 = (doe - doe / 1460 + doe / 36524 - doe / 146096) / 365;
    proof {
        lemma_year_of_cycle(
            doe as int,
            yoe as int,
            doe - (365 * yoe + yoe / 4 - yoe / 100),
        );
    }
    let y: i64 = yoe as i64 + era * 400;
    let doy: u32 = doe - (365 * yoe + yoe / 4 - yoe / 100);
    let mp: u32 = (5 * doy + 2) / 153;
    proof {
        lemma_month_of_year(doy as int, mp as int, doy - (153 * mp + 2) / 5 + 1);
        lemma_date_of_parts(
            era as int,
            doe as int,
            yoe as int,
            doy as int,
            mp as int,
            doy - (153 * mp + 2) / 5 + 1,
        );
    }
    let d: u32 = doy - (153 * mp + 2) / 5 + 1;
    let m: u32 = if mp < 10 {
        mp + 3
    } else {
        mp - 9
    };
    let civil_y: i64 = if m <= 2 {
        y + 1
    } else {
        y
    };
    assert forall|y2: int, m2: int, d2: int|
        valid_date(y2, m2, d2) && #[trigger] day_number(y2, m2, d2) == given implies civil_y == y2
        && m == m2 && d == d2 by {
        law_day_number_is_injective(civil_y as int, m as int, d as int, y2, m2, d2);
    }
    (civil_y, m, d)
}

/// Every day count is that of a date of the calendar.
pub proof fn law_every_day_has_a_date(z: int) -> (date: (int, int, int))
    ensures
        valid_date(date.0, date.1, date.2),
        day_number(date.0, date.1, date.2) == z,
{
    let era = (z + 719468) / 146097;
    let doe = (z + 719468) % 146097;
    let yoe = (doe - doe / 1460 + doe / 36524 - doe / 146096) / 365;
    let doy = doe - (365 * yoe + yoe / 4 - yoe / 100);
    let mp = (5 * doy + 2) / 153;
    let d = doy - (153 * mp + 2) / 5 + 1;
    let m = if mp < 10 {
        mp + 3
    } else {
        mp - 9
    };
    lemma_year_of_cycle(doe, yoe, doy);
    lemma_date_of_parts(era, doe, yoe, doy, mp, d);
    (yoe + era * 400 + if m <= 2 { 1int } else { 0 }, m, d)
}

/// Day of week for a day count; 0 = Sunday (1970-01-01 was a Thursday).
pub open spec fn weekday_of(days: int) -> int {
    (days + 4) % 7
}

/// Day of week for a day count; 0 = Sunday (1970-01-01 was a Thursday).
pub fn weekday(days: i64) -> (w: u32)
    requires
        days + 4 <= i64::MAX,
    ensures
        w == weekday_of(days as int),
{
    (days + 4).checked_rem_euclid(7).unwrap() as u32
}

/// The days before a date in its year.
spec fn day_of_year(y: int, m: int, d: int) -> int {
    let leap: int = if is_leap(y) {
        1
    } else {
        0
    };
    if m <= 2 {
        31 * (m - 1) + d - 1
    } else {
        59 + leap + (153 * (m - 3) + 2) / 5 + d - 1
    }
}

/// The days before a year.
spec fn year_start(y: int) -> int {
    365 * (y - 1) + (y - 1) / 4 - (y - 1) / 100 + (y - 1) / 400 + 306 - 719468
}

/// From one number to the next, the quotient grows where the divisor divides.
proof fn lemma_quotient_grows(y: int, k: int)
    requires
        k > 0,
    ensures
        y / k == (y - 1) / k + if y % k == 0 {
            1int
        } else {
            0
        },
{
    let q = y / k;
    let r = y % k;
    lemma_fundamental_div_mod(y, k);
    if r > 0 {
        assert(y - 1 == q * k + (r - 1)) by (nonlinear_arith)
            requires
                y == k * q + r,
        ;
        lemma_fundamental_div_mod_converse(y - 1, k, q, r - 1);
    } else {
        assert(y - 1 == (q - 1) * k + (k - 1)) by (nonlinear_arith)
            requires
                y == k * q,
        ;
        lemma_fundamental_div_mod_converse(y - 1, k, q - 1, k - 1);
    }
}

proof fn lemma_leap_days(y: int)
    ensures
        y / 4 - y / 100 + y / 400 == (y - 1) / 4 - (y - 1) / 100 + (y - 1) / 400 + if is_leap(y) {
            1int
        } else {
            0
        },
{
    lemma_quotient_grows(y, 4);
    lemma_quotient_grows(y, 100);
    lemma_quotient_grows(y, 400);
    if y % 400 == 0 {
        lemma_fundamental_div_mod_converse(y, 100, 4 * (y / 400), 0);
    }
    if y % 100 == 0 {
        lemma_fundamental_div_mod_converse(y, 4, 25 * (y / 100), 0);
    }
}

proof fn lemma_day_number_of_year(y: int, m: int, d: int)
    requires
        valid_date(y, m, d),
    ensures
        day_number(y, m, d) == year_start(y) + day_of_year(y, m, d),
        0 <= day_of_year(y, m, d) < 366,
        day_of_year(y, m, d) == 365 ==> is_leap(y),
{
    lemma_leap_days(y);
}

proof fn lemma_year_start_grows(y1: int, y2: int)
    requires
        y1 < y2,
    ensures
        year_start(y1) + 365 + (if is_leap(y1) { 1int } else { 0 }) <= year_start(y2),
{
    let a = y1;
    let b = y2 - 1;
    lemma_leap_days(y1);
    assert(b / 100 - a / 100 <= b - a);
    assert(b / 4 >= a / 4 && b / 400 >= a / 400);
}

proof fn lemma_day_of_year_grows(y: int, m1: int, d1: int, m2: int, d2: int)
    requires
        valid_date(y, m1, d1),
        valid_date(y, m2, d2),
        m1 < m2 || (m1 == m2 && d1 < d2),
    ensures
        day_of_year(y, m1, d1) < day_of_year(y, m2, d2),
{
}

/// A later date of the calendar has a larger day count.
pub proof fn law_day_number_grows(y1: int, m1: int, d1: int, y2: int, m2: int, d2: int)
    requires
        valid_date(y1, m1, d1),
        valid_date(y2, m2, d2),
        y1 < y2 || (y1 == y2 && (m1 < m2 || (m1 == m2 && d1 < d2))),
    ensures
        day_number(y1, m1, d1) < day_number(y2, m2, d2),
{
    lemma_day_number_of_year(y1, m1, d1);
    lemma_day_number_of_year(y2, m2, d2);
    if y1 < y2 {
        lemma_year_start_grows(y1, y2);
    } else {
        lemma_day_of_year_grows(y1, m1, d1, m2, d2);
    }
}

/// No two dates of the calendar have the same day count.
pub proof fn law_day_number_is_injective(y1: int, m1: int, d1: int, y2: int, m2: int, d2: int)
    requires
        valid_date(y1, m1, d1),
        valid_date(y2, m2, d2),
        day_number(y1, m1, d1) == day_number(y2, m2, d2),
    ensures
        y1 == y2 && m1 == m2 && d1 == d2,
{
    if y1 < y2 || (y1 == y2 && (m1 < m2 || (m1 == m2 && d1 < d2))) {
        law_day_number_grows(y1, m1, d1, y2, m2, d2);
    } else if !(y1 == y2 && m1 == m2 && d1 == d2) {
        law_day_number_grows(y2, m2, d2, y1, m1, d1);
    }
}

/// The next day has the next weekday, and 1970-01-01 is a Thursday.
pub proof fn law_weekdays_follow_each_other(days: int)
    ensures
        0 <= weekday_of(days) <= 6,
        weekday_of(days + 1) == (weekday_of(days) + 1) % 7,
        weekday_of(days + 7) == weekday_of(days),
        weekday_of(day_number(1970, 1, 1)) == 4,
{
    let w = (days + 4) % 7;
    let q = (days + 4) / 7;
    assert(days + 4 == 7 * q + w && 0 <= w <= 6);
    assert((days + 7 + 4) % 7 == w);
    assert((days + 1 + 4) % 7 == if w == 6 { 0 } else { w + 1 });
    assert((w + 1) % 7 == if w == 6 { 0 } else { w + 1 });
    assert(day_number(1970, 1, 1) == 0);
}

/// The year, month and day that a text of the form dd/mm/yyyy names: a day of 1
/// to 31, a month of 1 to 12 and a year, between slashes, with white space only
/// at the two ends. What follows a third slash is not read.
pub open spec fn dmy(s: Seq<char>) -> Option<(int, int, int)> {
    let parts = split(trimmed(s), '/');
    let d = unsigned(parts[0], 31);
    let m = unsigned(parts[1], 12);
    let y = signed(parts[2]);
    if parts.len() >= 3 && d is Some && d->0 >= 1 && m is Some && m->0 >= 1 && y is Some {
        Some((y->0, m->0 as int, d->0 as int))
    } else {
        None
    }
}

/// Parse "dd/mm/yyyy".
pub fn parse_dmy(s: &str) -> (date: Option<(i64, u32, u32)>)
    ensures
        match date {
            Some((y, m, d)) => dmy(s@) == Some((y as int, m as int, d as int)),
            None => dmy(s@) is None,
        },
{
    let chars: Vec<char> = chars_of(s);
    let parts: Vec<Vec<char>> = split_at(trim(chars.as_slice()), '/');
    let ghost spec_parts = split(trimmed(s@), '/');
    assert forall|i: int| 0 <= i < parts@.len() implies #[trigger] spec_parts[i] == parts@[i]@ by {
        assert(contents(parts@)[i] == parts@[i]@);
    }
    if parts.len() < 3 {
        return None;
    }
    let d: Option<u64> = read_unsigned(parts[0].as_slice(), 31);
    let m: Option<u64> = read_unsigned(parts[1].as_slice(), 12);
    let y: Option<i64> = read_signed(parts[2].as_slice());
    match (d, m, y) {
        (Some(d), Some(m), Some(y)) => if d >= 1 && m >= 1 {
            Some((y, m as u32, d as u32))
        } else {
            None
        },
        _ => None,
    }
}

/// A number in base ten, with a zero before a single digit.
pub open spec fn two_digits(n: nat) -> Seq<char> {
    if n < 10 {
        seq!['0'] + decimal(n)
    } else {
        decimal(n)
    }
}

pub open spec fn signed_decimal(n: int) -> Seq<char> {
    if n < 0 {
        seq!['-'] + decimal((-n) as nat)
    } else {
        decimal(n as nat)
    }
}

/// A date in the form dd/mm/yyyy.
pub open spec fn date_text(y: int, m: int, d: int) -> Seq<char> {
    two_digits(d as nat) + seq!['/'] + two_digits(m as nat) + seq!['/'] + signed_decimal(y)
}

fn push_two_digits(out: &mut Vec<char>, n: u32)
    ensures
        final(out)@ == old(out)@ + two_digits(n as nat),
{
    if n < 10 {
        out.push('0');
    }
    let mut digits: Vec<char> = write_decimal(n as u64);
    out.append(&mut digits);
    assert(out@ =~= old(out)@ + two_digits(n as nat));
}

/// Writes a date in the form dd/mm/yyyy.
fn write_date(y: i64, m: u32, d: u32) -> (text: String)
    ensures
        text@ == date_text(y as int, m as int, d as int),
{
    let mut out: Vec<char> = Vec::new();
    push_two_digits(&mut out, d);
    out.push('/');
    push_two_digits(&mut out, m);
    out.push('/');
    if y < 0 {
        out.push('-');
    }
    let size: u64 = if y < 0 {
        (-(y as i128)) as u64
    } else {
        y as u64
    };
    let mut digits: Vec<char> = write_decimal(size);
    out.append(&mut digits);
    assert(out@ =~= date_text(y as int, m as int, d as int));
    text_of(out.as_slice())
}

/// How many of the newest draws show the cadence.
pub const CADENCE: usize = 30;

/// The days of the given dates that can be read.
pub open spec fn days_read(dates: Seq<Seq<char>>) -> Seq<int>
    decreases dates.len(),
{
    if dates.len() == 0 {
        Seq::empty()
    } else {
        let rest = days_read(dates.drop_last());
        match dmy(dates.last()) {
            Some((y, m, d)) => rest.push(day_number(y, m, d)),
            None => rest,
        }
    }
}

/// The dates of the newest draws, newest first.
pub open spec fn newest_dates(draws: Seq<DrawView>) -> Seq<Seq<char>> {
    let count = if draws.len() < CADENCE {
        draws.len()
    } else {
        CADENCE as nat
    };
    Seq::new(count, |i: int| draws[draws.len() - 1 - i].date)
}

/// The days of the newest draws, newest first.
pub open spec fn draw_days(draws: Seq<DrawView>) -> Seq<int> {
    days_read(newest_dates(draws))
}

/// Whether the given days show draws on the weekday of a day.
pub open spec fn on_cadence(days: Seq<int>, day: int) -> bool {
    exists|i: int| 0 <= i < days.len() && weekday_of(#[trigger] days[i]) == weekday_of(day)
}

/// The earliest day that the next draw can be on: today, but not before the day
/// after the last draw.
pub open spec fn earliest(days: Seq<int>, today: int) -> int {
    if today > days.first() + 1 {
        today
    } else {
        days.first() + 1
    }
}

/// Whether `day` is the first from the earliest on that keeps the cadence.
pub open spec fn is_next_day(days: Seq<int>, today: int, day: int) -> bool {
    &&& earliest(days, today) <= day
    &&& on_cadence(days, day)
    &&& forall|e: int| earliest(days, today) <= e < day ==> !#[trigger] on_cadence(days, e)
}

/// Whether a text is the date of a day.
pub open spec fn dates_day(text: Seq<char>, day: int) -> bool {
    exists|y: int, m: int, d: int|
        valid_date(y, m, d) && #[trigger] day_number(y, m, d) == day && text == date_text(y, m, d)
}

/// The last day that has a date.
pub const LAST_DAY: i64 = i64::MAX - 719_468;

/// Whether the days of the newest draws, and that of the next draw where there is
/// one to look for, can be counted with.
pub open spec fn countable(draws: Seq<DrawView>, today: int) -> bool {
    let days = draw_days(draws);
    &&& forall|i: int| 0 <= i < days.len() ==> i64::MIN <= #[trigger] days[i] <= LAST_DAY
    &&& days.len() > 0 ==> forall|day: int| #[trigger]
        is_next_day(days, today, day) ==> day <= LAST_DAY
}

/// Some day of every week keeps the cadence.
pub proof fn law_cadence_is_met_within_a_week(days: Seq<int>, from: int) -> (day: int)
    requires
        days.len() > 0,
    ensures
        from <= day < from + 7,
        on_cadence(days, day),
{
    let day = from + (days[0] - from) % 7;
    assert(weekday_of(days[0]) == weekday_of(day));
    day
}

/// Draws older than the newest 30 have no influence on the next one.
pub proof fn law_older_draws_do_not_matter(
    older: Seq<DrawView>,
    newest: Seq<DrawView>,
    today: int,
)
    requires
        newest.len() >= CADENCE,
    ensures
        draw_days(older + newest) == draw_days(newest),
        countable(older + newest, today) == countable(newest, today),
{
    assert(newest_dates(older + newest) =~= newest_dates(newest));
}

/// What a date is written as is read as that date, if its day is one of 1 to 31 and
/// its month one of 1 to 12, and is no date otherwise.
pub proof fn law_written_date_is_read_back(y: int, m: int, d: int)
    requires
        m >= 0,
        d >= 0,
        i64::MIN <= y <= i64::MAX,
    ensures
        1 <= m <= 12 && 1 <= d <= 31 ==> dmy(date_text(y, m, d)) == Some((y, m, d)),
        !(1 <= m <= 12 && 1 <= d <= 31) ==> dmy(date_text(y, m, d)) is None,
{
    let dd = two_digits(d as nat);
    let mm = two_digits(m as nat);
    let yy = signed_decimal(y);
    let text = date_text(y, m, d);
    lemma_two_digits(d as nat);
    lemma_two_digits(m as nat);
    let size: nat = if y < 0 {
        (-y) as nat
    } else {
        y as nat
    };
    lemma_decimal(size);
    assert(!dd.contains('/'));
    assert(!mm.contains('/'));
    assert(!yy.contains('/')) by {
        if yy.contains('/') {
            let i = choose|i: int| 0 <= i < yy.len() && yy[i] == '/';
            if y < 0 {
                assert(i > 0);
                assert(is_digit(decimal(size)[i - 1]));
            } else {
                assert(is_digit(decimal(size)[i]));
            }
        }
    }
    lemma_split_single(dd, '/');
    lemma_split_single(mm, '/');
    lemma_split_single(yy, '/');
    lemma_split_around(mm, yy, '/');
    lemma_split_around(dd, mm.push('/') + yy, '/');
    assert(text =~= dd.push('/') + (mm.push('/') + yy));
    assert(is_digit(text.first())) by {
        assert(text.first() == dd[0]);
    }
    assert(is_digit(text.last())) by {
        assert(text.last() == yy.last());
        assert(yy.last() == decimal(size).last());
        assert(is_digit(decimal(size)[decimal(size).len() - 1]));
    }
    assert(trimmed(text) == text);
    let parts = split(text, '/');
    assert(parts =~= seq![dd, mm, yy]);
    assert(is_digit(dd[0]) && is_digit(mm[0]));
    if y < 0 {
        assert(yy.drop_first() =~= decimal(size));
    } else {
        assert(is_digit(decimal(size)[0]));
    }
}

/// Four centuries have 146097 days, which are whole weeks.
pub proof fn law_four_centuries(y: int, m: int, d: int)
    ensures
        day_number(y + 400, m, d) == day_number(y, m, d) + 146097,
        weekday_of(day_number(y + 400, m, d)) == weekday_of(day_number(y, m, d)),
{
    let year = if m <= 2 {
        y - 1
    } else {
        y
    };
    let cycle = year / 400;
    let of_cycle = year % 400;
    lemma_fundamental_div_mod(year, 400);
    lemma_quotients_of_cycle(year, cycle, of_cycle);
    lemma_quotients_of_cycle(year + 400, cycle + 1, of_cycle);
    let days = day_number(y, m, d);
    assert((days + 146097 + 4) % 7 == (days + 4) % 7);
}

/// Two days have the same weekday exactly if whole weeks lie between them.
proof fn lemma_same_weekday(a: int, b: int)
    ensures
        weekday_of(a) == weekday_of(b) <==> (a - b) % 7 == 0,
{
}

/// The day of the next draw: not before today, after the last draw, whole weeks from
/// one of the draws, at most a week from the first day that it could be, and no
/// earlier day `e` that it could be is whole weeks from any draw.
pub proof fn law_next_day(days: Seq<int>, today: int, day: int, e: int, i: int)
    requires
        days.len() > 0,
        is_next_day(days, today, day),
        0 <= i < days.len(),
    ensures
        day >= today,
        day > days[0],
        day < today + 7 || day <= days[0] + 7,
        exists|j: int| 0 <= j < days.len() && (day - #[trigger] days[j]) % 7 == 0,
        today <= e < day && days[0] < e ==> (e - days[i]) % 7 != 0,
{
    let j = choose|j: int|
        0 <= j < days.len() && weekday_of(#[trigger] days[j]) == weekday_of(day);
    lemma_same_weekday(day, days[j]);
    let met = law_cadence_is_met_within_a_week(days, earliest(days, today));
    assert(day <= met);
    lemma_same_weekday(e, days[i]);
    if today <= e < day && days[0] < e {
        assert(!on_cadence(days, e));
    }
}

/// A date that can be read gives its day.
proof fn lemma_date_is_counted(dates: Seq<Seq<char>>, i: int, y: int, m: int, d: int)
    requires
        0 <= i < dates.len(),
        dmy(dates[i]) == Some((y, m, d)),
    ensures
        days_read(dates).contains(day_number(y, m, d)),
        (forall|j: int| 0 <= j < i ==> dmy(#[trigger] dates[j]) is None) ==> days_read(dates)[0]
            == day_number(y, m, d),
    decreases dates.len(),
{
    let rest = dates.drop_last();
    let before = days_read(rest);
    let days = days_read(dates);
    if i < dates.len() - 1 {
        lemma_date_is_counted(rest, i, y, m, d);
        let x = choose|x: int| 0 <= x < before.len() && before[x] == day_number(y, m, d);
        assert(days[x] == before[x] && days[0] == before[0]);
        assert(forall|j: int| 0 <= j < i ==> rest[j] == #[trigger] dates[j]);
    } else {
        assert(days.last() == day_number(y, m, d));
        assert(days[before.len() as int] == day_number(y, m, d));
        if forall|j: int| 0 <= j < i ==> dmy(#[trigger] dates[j]) is None {
            assert forall|j: int| 0 <= j < rest.len() implies dmy(#[trigger] rest[j]) is None by {
                assert(rest[j] == dates[j]);
            }
            lemma_no_date_is_counted(rest);
        }
    }
}

proof fn lemma_no_date_is_counted(dates: Seq<Seq<char>>)
    requires
        forall|j: int| 0 <= j < dates.len() ==> dmy(#[trigger] dates[j]) is None,
    ensures
        days_read(dates).len() == 0,
    decreases dates.len(),
{
    if dates.len() > 0 {
        lemma_no_date_is_counted(dates.drop_last());
        assert(dmy(dates[dates.len() - 1]) is None);
    }
}

/// A day that is counted is that of a date.
proof fn lemma_day_has_a_date(dates: Seq<Seq<char>>, j: int) -> (i: int)
    requires
        0 <= j < days_read(dates).len(),
    ensures
        0 <= i < dates.len(),
        ({
            let (y, m, d) = dmy(dates[i])->0;
            dmy(dates[i]) is Some && days_read(dates)[j] == day_number(y, m, d)
        }),
    decreases dates.len(),
{
    let rest = dates.drop_last();
    if j < days_read(rest).len() {
        let i = lemma_day_has_a_date(rest, j);
        assert(rest[i] == dates[i]);
        i
    } else {
        dates.len() - 1
    }
}

/// Each of the newest 30 draws whose date can be read shows its day, and the newest
/// of them is the last draw.
pub proof fn law_newest_draws_count(draws: Seq<DrawView>, i: int, y: int, m: int, d: int)
    requires
        0 <= i < 30,
        i < draws.len(),
        dmy(draws[draws.len() - 1 - i].date) == Some((y, m, d)),
    ensures
        draw_days(draws).contains(day_number(y, m, d)),
        (forall|j: int|
            draws.len() - 1 - i < j < draws.len() ==> dmy((#[trigger] draws[j]).date) is None)
            ==> draw_days(draws)[0] == day_number(y, m, d),
{
    let dates = newest_dates(draws);
    lemma_date_is_counted(dates, i, y, m, d);
    assert forall|j: int| draws.len() - 1 - i < j < draws.len() implies dates[draws.len() - 1 - j]
        == (#[trigger] draws[j]).date by {}
    if forall|j: int|
        draws.len() - 1 - i < j < draws.len() ==> dmy((#[trigger] draws[j]).date) is None {
        assert forall|j: int| 0 <= j < i implies dmy(#[trigger] dates[j]) is None by {
            assert(dates[j] == draws[draws.len() - 1 - j].date);
        }
    }
}

/// No other day is shown than that of one of the newest 30 draws.
pub proof fn law_days_are_those_of_newest_draws(draws: Seq<DrawView>, j: int) -> (i: int)
    requires
        0 <= j < draw_days(draws).len(),
    ensures
        0 <= i < 30,
        i < draws.len(),
        ({
            let (y, m, d) = dmy(draws[draws.len() - 1 - i].date)->0;
            dmy(draws[draws.len() - 1 - i].date) is Some && draw_days(draws)[j] == day_number(
                y,
                m,
                d,
            )
        }),
{
    lemma_day_has_a_date(newest_dates(draws), j)
}

/// The date that is announced for a day reads as that day, and is written with two
/// digits for the day and two for the month, each before a slash.
pub proof fn law_announced_date(text: Seq<char>, day: int)
    requires
        dates_day(text, day),
        i64::MIN <= day <= LAST_DAY,
    ensures
        ({
            let (y, m, d) = dmy(text)->0;
            &&& dmy(text) is Some
            &&& valid_date(y, m, d)
            &&& day_number(y, m, d) == day
        }),
        text.len() >= 7,
        is_digit(text[0]) && is_digit(text[1]) && text[2] == '/',
        is_digit(text[3]) && is_digit(text[4]) && text[5] == '/',
        forall|i: int| 7 <= i < text.len() ==> is_digit(#[trigger] text[i]),
{
    let (y, m, d) = choose|y: int, m: int, d: int|
        valid_date(y, m, d) && #[trigger] day_number(y, m, d) == day && text == date_text(y, m, d);
    lemma_year_fits(y, m, d);
    law_written_date_is_read_back(y, m, d);
    lemma_two_digits(d as nat);
    lemma_two_digits(m as nat);
    lemma_two_places(d as nat);
    lemma_two_places(m as nat);
    let size: nat = if y < 0 {
        (-y) as nat
    } else {
        y as nat
    };
    lemma_decimal(size);
    let dd = two_digits(d as nat);
    let mm = two_digits(m as nat);
    let yy = signed_decimal(y);
    assert(is_digit(dd[0]) && is_digit(dd[1]) && is_digit(mm[0]) && is_digit(mm[1]));
    assert(text[0] == dd[0] && text[1] == dd[1] && text[3] == mm[0] && text[4] == mm[1]);
    assert forall|i: int| 7 <= i < text.len() implies is_digit(#[trigger] text[i]) by {
        assert(text[i] == yy[i - 6]);
        if y < 0 {
            assert(yy[i - 6] == decimal(size)[i - 7]);
        } else {
            assert(yy[i - 6] == decimal(size)[i - 6]);
        }
    }
}

proof fn lemma_two_places(n: nat)
    requires
        n < 100,
    ensures
        two_digits(n).len() == 2,
{
    if n >= 10 {
        assert(n / 10 < 10);
        assert(decimal(n / 10).len() == 1);
    }
}

/// A day that is counted in 64 bits is one of a year that is.
proof fn lemma_year_fits(y: int, m: int, d: int)
    requires
        valid_date(y, m, d),
        i64::MIN <= day_number(y, m, d) <= i64::MAX,
    ensures
        i64::MIN <= y <= i64::MAX,
{
}

proof fn lemma_two_digits(n: nat)
    ensures
        two_digits(n).len() > 0,
        all_digits(two_digits(n)),
        decimal_value(two_digits(n)) == n,
{
    lemma_decimal(n);
    if n < 10 {
        let s = two_digits(n);
        assert(s =~= seq!['0', digit(n)]);
        assert(s.drop_last() =~= seq!['0']);
        assert(seq!['0'].drop_last() =~= Seq::empty());
        assert(decimal_value(Seq::<char>::empty()) == 0);
        assert(decimal_value(seq!['0']) == 0);
    }
}

spec fn counts(days: Seq<i128>) -> Seq<int> {
    days.map_values(|day: i128| day as int)
}

/// The days of the newest draws, newest first.
fn newest_days(draws: &[Draw]) -> (days: Vec<i128>)
    ensures
        counts(days@) == draw_days(views(draws@)),
{
    let mut days: Vec<i128> = Vec::new();
    let ghost dates = newest_dates(views(draws@));
    let count: usize = if draws.len() < CADENCE {
        draws.len()
    } else {
        CADENCE
    };
    let mut i: usize = 0;
    assert(counts(days@) =~= days_read(dates.take(0)));
    while i < count
        invariant
            i <= count <= draws@.len(),
            dates == newest_dates(views(draws@)),
            dates.len() == count,
            counts(days@) == days_read(dates.take(i as int)),
        decreases count - i,
    {
        let ghost before = counts(days@);
        let draw: &Draw = &draws[draws.len() - 1 - i];
        assert(dates.take(i + 1).drop_last() =~= dates.take(i as int));
        assert(dates.take(i + 1).last() == draw.date@);
        if let Some((y, m, d)) = parse_dmy(draw.date.as_str()) {
            days.push(count_days(y, m, d));
            assert(counts(days@) =~= before.push(
                day_number(y as int, m as int, d as int),
            ));
        }
        i += 1;
    }
    assert(dates.take(i as int) =~= dates);
    days
}

fn keeps_cadence(days: &Vec<i128>, day: i128) -> (b: bool)
    requires
        forall|j: int| 0 <= j < days@.len() ==> i64::MIN <= #[trigger] days@[j] <= i64::MAX,
        i64::MIN <= day <= i64::MAX + 8,
    ensures
        b == on_cadence(counts(days@), day as int),
{
    let mut i: usize = 0;
    while i < days.len()
        invariant
            i <= days@.len(),
            forall|j: int| 0 <= j < days@.len() ==> i64::MIN <= #[trigger] days@[j] <= i64::MAX,
            i64::MIN <= day <= i64::MAX + 8,
            forall|j: int|
                0 <= j < i ==> weekday_of(#[trigger] counts(days@)[j]) != weekday_of(day as int),
        decreases days@.len() - i,
    {
        assert(counts(days@)[i as int] == days@[i as int]);
        if (days[i] + 4).checked_rem_euclid(7).unwrap() == (day + 4).checked_rem_euclid(
            7,
        ).unwrap() {
            return true;
        }
        i += 1;
    }
    false
}

/// The day of the next draw, in a type that holds it whatever today is.
fn find_next_day(days: &Vec<i128>, today: i64) -> (day: i128)
    requires
        days@.len() > 0,
        forall|j: int| 0 <= j < days@.len() ==> i64::MIN <= #[trigger] days@[j] <= i64::MAX,
    ensures
        is_next_day(counts(days@), today as int, day as int),
{
    let ghost counted = counts(days@);
    assert(counted[0] == days@[0]);
    let start: i128 = if today as i128 > days[0] + 1 {
        today as i128
    } else {
        days[0] + 1
    };
    let ghost met = law_cadence_is_met_within_a_week(counted, start as int);
    let mut day: i128 = start;
    while !keeps_cadence(days, day)
        invariant
            counts(days@) == counted,
            forall|j: int| 0 <= j < days@.len() ==> i64::MIN <= #[trigger] days@[j] <= i64::MAX,
            i64::MIN <= start <= i64::MAX + 1,
            start <= day <= met < start + 7,
            on_cadence(counted, met),
            forall|e: int| start <= e < day ==> !#[trigger] on_cadence(counted, e),
        decreases met - day,
    {
        day += 1;
    }
    day
}

/// No two days are both the day of the next draw.
pub proof fn law_next_day_is_unique(days: Seq<int>, today: int, a: int, b: int)
    requires
        is_next_day(days, today, a),
        is_next_day(days, today, b),
    ensures
        a == b,
{
}

/// Whether `next_draw` can count with the days of the newest draws and today.
pub fn can_count(draws: &[Draw], today: i64) -> (b: bool)
    ensures
        b == countable(views(draws@), today as int),
{
    let days: Vec<i128> = newest_days(draws);
    let ghost counted = draw_days(views(draws@));
    let mut i: usize = 0;
    while i < days.len()
        invariant
            i <= days@.len(),
            counted == draw_days(views(draws@)),
            counts(days@) == counted,
            forall|j: int| 0 <= j < i ==> i64::MIN <= #[trigger] counted[j] <= LAST_DAY,
        decreases days@.len() - i,
    {
        assert(counted[i as int] == days@[i as int]);
        if days[i] < i64::MIN as i128 || days[i] > LAST_DAY as i128 {
            return false;
        }
        i += 1;
    }
    if days.len() == 0 {
        return true;
    }
    assert forall|j: int| 0 <= j < days@.len() implies i64::MIN <= #[trigger] days@[j]
        <= i64::MAX by {
        assert(counted[j] == days@[j]);
    }
    let next: i128 = find_next_day(&days, today);
    proof {
        assert forall|day: int| #[trigger] is_next_day(counted, today as int, day) implies day
            == next by {
            law_next_day_is_unique(counted, today as int, day, next as int);
        }
    }
    next <= LAST_DAY as i128
}

/// Date of the next draw: the first day, from today or the day after the last
/// draw on, whichever is later, whose weekday matches the drawing cadence
/// observed in the last 30 draws. Returns ("dd/mm/yyyy", weekday with
/// 0 = Sunday), or `None` if none of those draws has a date that can be read.
pub fn next_draw(draws: &[Draw], today: i64) -> (next: Option<(String, u32)>)
    requires
        countable(views(draws@), today as int),
    ensures
        match next {
            None => draw_days(views(draws@)).len() == 0,
            Some((date, w)) => draw_days(views(draws@)).len() > 0 && exists|day: int|
                #[trigger] is_next_day(draw_days(views(draws@)), today as int, day) && dates_day(
                    date@,
                    day,
                ) && w == weekday_of(day),
        },
{
    let days: Vec<i128> = newest_days(draws);
    let ghost counted = draw_days(views(draws@));
    if days.len() == 0 {
        return None;
    }
    assert forall|j: int| 0 <= j < days@.len() implies i64::MIN <= #[trigger] days@[j]
        <= LAST_DAY by {
        assert(counted[j] == days@[j]);
    }
    assert(counted[0] == days@[0]);
    let next: i128 = find_next_day(&days, today);
    assert(is_next_day(counted, today as int, next as int));
    let day: i64 = next as i64;
    let (y, m, d) = civil_from_days(day);
    assert(day_number(y as int, m as int, d as int) == day);
    Some((write_date(y, m, d), weekday(day)))
}

/// Days that leave room for the days from the first of March of year 0 to 1970, and
/// for a week, can be counted with.
pub proof fn law_days_that_can_be_counted_with(draws: Seq<DrawView>, today: int)
    requires
        today + 719_468 + 7 <= i64::MAX,
        forall|i: int|
            0 <= i < draw_days(draws).len() ==> i64::MIN <= #[trigger] draw_days(draws)[i]
                && draw_days(draws)[i] + 719_468 + 7 <= i64::MAX,
    ensures
        countable(draws, today),
{
    let days = draw_days(draws);
    if days.len() > 0 {
        assert(days[0] + 719_468 + 7 <= i64::MAX);
        assert forall|day: int| #[trigger] is_next_day(days, today, day) implies day
            <= LAST_DAY by {
            law_next_day(days, today, day, day, 0);
        }
    }
}

/// The months of a year have 31, 28 or 29, 31, 30, 31, 30, 31, 31, 30, 31, 30 and 31
/// days; a year has 366 if four divides it and a hundred does not or four hundred does,
/// and 365 otherwise.
pub proof fn law_year(y: int)
    ensures
        ({
            let leap: int = if y % 4 == 0 && (y % 100 != 0 || y % 400 == 0) {
                1
            } else {
                0
            };
            &&& day_number(y, 2, 1) == day_number(y, 1, 1) + 31
            &&& day_number(y, 3, 1) == day_number(y, 2, 1) + 28 + leap
            &&& day_number(y, 4, 1) == day_number(y, 3, 1) + 31
            &&& day_number(y, 5, 1) == day_number(y, 4, 1) + 30
            &&& day_number(y, 6, 1) == day_number(y, 5, 1) + 31
            &&& day_number(y, 7, 1) == day_number(y, 6, 1) + 30
            &&& day_number(y, 8, 1) == day_number(y, 7, 1) + 31
            &&& day_number(y, 9, 1) == day_number(y, 8, 1) + 31
            &&& day_number(y, 10, 1) == day_number(y, 9, 1) + 30
            &&& day_number(y, 11, 1) == day_number(y, 10, 1) + 31
            &&& day_number(y, 12, 1) == day_number(y, 11, 1) + 30
            &&& day_number(y + 1, 1, 1) == day_number(y, 12, 1) + 31
            &&& day_number(y + 1, 1, 1) == day_number(y, 1, 1) + 365 + leap
        }),
{
    lemma_leap_days(y);
}

/// Each day of a month is one more than the day before it.
pub proof fn law_days_of_a_month(y: int, m: int, d: int)
    ensures
        day_number(y, m, d + 1) == day_number(y, m, d) + 1,
        day_number(1970, 1, 1) == 0,
{
}

} // verus!
