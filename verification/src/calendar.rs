//! Dates of the Gregorian calendar, by the number of days since 1970-01-01.

use vstd::prelude::*;
use vstd::string::StringExecFns;
use crate::decimal::digits_value;
use crate::decimal::padded_decimal;
use crate::decimal::padded_decimal_of;
use crate::decimal::padded_decimal_reads_back;
use crate::decimal::small_numbers_are_short;

verus! {

/// A year, a month (1 to 12) and a day of the month (from 1).
pub ghost struct Date {
    pub year: int,
    pub month: int,
    pub day: int,
}

pub open spec fn date(year: i64, month: u32, day: u32) -> Date {
    Date { year: year as int, month: month as int, day: day as int }
}

pub open spec fn is_leap(year: int) -> bool {
    year % 4 == 0 && (year % 100 != 0 || year % 400 == 0)
}

pub open spec fn month_len(year: int, month: int) -> int {
    if month == 2 {
        if is_leap(year) {
            29
        } else {
            28
        }
    } else if month == 4 || month == 6 || month == 9 || month == 11 {
        30
    } else {
        31
    }
}

pub open spec fn is_date(d: Date) -> bool {
    1 <= d.month <= 12 && 1 <= d.day <= month_len(d.year, d.month)
}

/// The number of days from the first day of the year 0 to that of `year`.
pub open spec fn days_before_year(year: int) -> int {
    365 * year + (year + 3) / 4 - (year + 99) / 100 + (year + 399) / 400
}

/// The number of days in `year` before the month `month`.
pub open spec fn days_before_month(year: int, month: int) -> int
    decreases month,
{
    if month <= 1 {
        0
    } else {
        days_before_month(year, month - 1) + month_len(year, month - 1)
    }
}

/// The number of days from 1970-01-01 to `d`.
pub open spec fn epoch_day(d: Date) -> int {
    days_before_year(d.year) + days_before_month(d.year, d.month) + d.day - 1 - days_before_year(
        1970,
    )
}

/// The date that is `day` days behind 1970-01-01.
pub open spec fn date_of(day: int) -> Date {
    choose|d: Date| is_date(d) && #[trigger] epoch_day(d) == day
}

proof fn lemma_months(year: int)
    ensures
        days_before_month(year, 1) == 0,
        days_before_month(year, 2) == 31,
        days_before_month(year, 3) == 31 + month_len(year, 2),
        days_before_month(year, 4) == 62 + month_len(year, 2),
        days_before_month(year, 5) == 92 + month_len(year, 2),
        days_before_month(year, 6) == 123 + month_len(year, 2),
        days_before_month(year, 7) == 153 + month_len(year, 2),
        days_before_month(year, 8) == 184 + month_len(year, 2),
        days_before_month(year, 9) == 215 + month_len(year, 2),
        days_before_month(year, 10) == 245 + month_len(year, 2),
        days_before_month(year, 11) == 276 + month_len(year, 2),
        days_before_month(year, 12) == 306 + month_len(year, 2),
        days_before_month(year, 13) == 337 + month_len(year, 2),
{
    reveal_with_fuel(days_before_month, 14);
}

/// A year has 365 days, and 366 where it is a leap year.
pub proof fn year_length(year: int)
    ensures
        days_before_year(year + 1) - days_before_year(year) == (if is_leap(year) {
            366int
        } else {
            365
        }),
        days_before_month(year, 13) == days_before_year(year + 1) - days_before_year(year),
{
    lemma_months(year);
    assert((year + 4) / 4 - (year + 3) / 4 == if year % 4 == 0 {
        1int
    } else {
        0
    });
    assert((year + 100) / 100 - (year + 99) / 100 == if year % 100 == 0 {
        1int
    } else {
        0
    });
    assert((year + 400) / 400 - (year + 399) / 400 == if year % 400 == 0 {
        1int
    } else {
        0
    });
}

proof fn lemma_month_order(year: int, a: int, b: int)
    requires
        1 <= a < b <= 13,
    ensures
        days_before_month(year, a) + month_len(year, a) <= days_before_month(year, b),
    decreases b - a,
{
    lemma_months(year);
    if a + 1 < b {
        lemma_month_order(year, a, b - 1);
    }
}

proof fn lemma_year_order(a: int, b: int)
    requires
        a <= b,
    ensures
        days_before_year(a) <= days_before_year(b),
    decreases b - a,
{
    if a < b {
        lemma_year_order(a, b - 1);
        year_length(b - 1);
    }
}

proof fn lemma_date_order(a: Date, b: Date)
    requires
        is_date(a),
        is_date(b),
        a.year < b.year || (a.year == b.year && a.month < b.month),
    ensures
        epoch_day(a) < epoch_day(b),
{
    lemma_months(b.year);
    if b.month > 1 {
        lemma_month_order(b.year, 1, b.month);
    }
    if a.year < b.year {
        year_length(a.year);
        if a.month < 13 {
            lemma_month_order(a.year, a.month, 13);
        }
        lemma_year_order(a.year + 1, b.year);
    } else {
        lemma_month_order(a.year, a.month, b.month);
    }
}

/// No two dates lie on one day.
pub proof fn date_is_unique(a: Date, b: Date)
    requires
        is_date(a),
        is_date(b),
        epoch_day(a) == epoch_day(b),
    ensures
        a == b,
{
    if a.year < b.year || (a.year == b.year && a.month < b.month) {
        lemma_date_order(a, b);
    }
    if b.year < a.year || (a.year == b.year && b.month < a.month) {
        lemma_date_order(b, a);
    }
}

/// The days in the first `y` years of an era, where a year starts in March.
spec fn march_days(y: int) -> int {
    365 * y + y / 4 - y / 100
}

/// The year in which day `doe` of an era lies.
spec fn march_year(doe: int) -> int {
    (doe - doe / 1460 + doe / 36_524 - doe / 146_096) / 365
}

proof fn lemma_march_year(doe: int)
    requires
        0 <= doe < 146_097,
    ensures
        0 <= march_year(doe) <= 399,
        march_days(march_year(doe)) <= doe,
        march_year(doe) < 399 ==> doe < march_days(march_year(doe) + 1),
{
    let c = if doe == 146_096 {
        3
    } else {
        doe / 36_524
    };
    let r = doe - 36_524 * c;
    let q = if r == 36_524 {
        24
    } else {
        r / 1461
    };
    let s = r - 1461 * q;
    assert(0 <= c <= 3);
    assert(0 <= r <= 36_524);
    assert(0 <= q <= 24);
    assert(0 <= s <= 1460);
    let t = if s == 1460 {
        3
    } else {
        s / 365
    };
    let e = if 24 * c + q + s >= 1460 {
        1int
    } else {
        0int
    };
    assert(doe == 36_524 * c + 1461 * q + s);
    assert(doe / 1460 == 25 * c + q + e);
    assert(doe - doe / 1460 + doe / 36_524 - doe / 146_096 == 36_500 * c + 1460 * q + s - e);
    assert((s - e) / 365 == t);
    assert(march_year(doe) == 100 * c + 4 * q + t);
    let y = 100 * c + 4 * q + t;
    assert(y / 4 == 25 * c + q);
    assert(y / 100 == c);
    assert(march_days(y) == 36_524 * c + 1461 * q + 365 * t);
    if y < 399 {
        assert(doe < march_days(y + 1)) by {
            if t < 3 {
                assert((y + 1) / 4 == 25 * c + q);
                assert((y + 1) / 100 == c);
            } else if q < 24 {
                assert((y + 1) / 4 == 25 * c + q + 1);
                assert((y + 1) / 100 == c);
            } else {
                assert((y + 1) / 4 == 25 * c + 25);
                assert((y + 1) / 100 == c + 1);
            }
        }
    }
}

/// The date of day `doy` of the year `y`, where the year starts in March.
spec fn march_date(y: int, doy: int) -> Date {
    let mp = (5 * doy + 2) / 153;
    let month = if mp < 10 {
        mp + 3
    } else {
        mp - 9
    };
    Date {
        year: if month <= 2 {
            y + 1
        } else {
            y
        },
        month,
        day: doy - (153 * mp + 2) / 5 + 1,
    }
}

proof fn lemma_march_offset(y: int)
    ensures
        days_before_year(y) + 31 + month_len(y, 2) == 365 * y + y / 4 - y / 100 + y / 400 + 60,
{
    assert((y + 3) / 4 - y / 4 == if y % 4 == 0 {
        0int
    } else {
        1
    });
    assert((y + 99) / 100 - y / 100 == if y % 100 == 0 {
        0int
    } else {
        1
    });
    assert((y + 399) / 400 - y / 400 == if y % 400 == 0 {
        0int
    } else {
        1
    });
}

proof fn lemma_march_date(y: int, doy: int)
    requires
        0 <= doy <= 365,
        doy == 365 ==> is_leap(y + 1),
    ensures
        is_date(march_date(y, doy)),
        epoch_day(march_date(y, doy)) == 365 * y + y / 4 - y / 100 + y / 400 + doy - 719_468,
{
    lemma_march_offset(y);
    lemma_months(y);
    lemma_months(y + 1);
    year_length(y);
    let mp = (5 * doy + 2) / 153;
    assert(0 <= mp <= 11);
    assert(days_before_year(1970) == 719_528);
    let d = march_date(y, doy);
    if mp == 0 {
        assert(0 <= doy <= 30);
    } else if mp == 1 {
        assert(31 <= doy <= 60);
    } else if mp == 2 {
        assert(61 <= doy <= 91);
    } else if mp == 3 {
        assert(92 <= doy <= 121);
    } else if mp == 4 {
        assert(122 <= doy <= 152);
    } else if mp == 5 {
        assert(153 <= doy <= 183);
    } else if mp == 6 {
        assert(184 <= doy <= 213);
    } else if mp == 7 {
        assert(214 <= doy <= 244);
    } else if mp == 8 {
        assert(245 <= doy <= 274);
    } else if mp == 9 {
        assert(275 <= doy <= 305);
    } else if mp == 10 {
        assert(306 <= doy <= 336);
    } else {
        assert(337 <= doy <= 365);
    }
}

proof fn lemma_day_doy(doe: int)
    requires
        0 <= doe < 146_097,
    ensures
        0 <= doe - march_days(march_year(doe)) <= 365,
        doe - march_days(march_year(doe)) == 365 ==> is_leap(march_year(doe) + 1),
{
    lemma_march_year(doe);
    let y = march_year(doe);
    if y == 399 {
        assert(march_days(399) == 145_731);
    } else {
        assert((y + 1) / 4 - y / 4 == if (y + 1) % 4 == 0 {
            1int
        } else {
            0
        });
        assert((y + 1) / 100 - y / 100 == if (y + 1) % 100 == 0 {
            1int
        } else {
            0
        });
    }
}

proof fn lemma_era(era: int, y: int)
    requires
        0 <= y <= 399,
    ensures
        (y + 400 * era) / 4 == y / 4 + 100 * era,
        (y + 400 * era) / 100 == y / 100 + 4 * era,
        (y + 400 * era) / 400 == era,
        is_leap(y + 400 * era + 1) == is_leap(y + 1),
{
    lemma_shifted(y, 4, 100 * era);
    lemma_shifted(y, 100, 4 * era);
    lemma_shifted(y, 400, era);
    lemma_shifted(y + 1, 4, 100 * era);
    lemma_shifted(y + 1, 100, 4 * era);
    lemma_shifted(y + 1, 400, era);
}

proof fn lemma_shifted(y: int, d: int, k: int)
    requires
        d > 0,
    ensures
        (y + d * k) / d == y / d + k,
        (y + d * k) % d == y % d,
{
    let q = y / d;
    let r = y % d;
    vstd::arithmetic::div_mod::lemma_fundamental_div_mod(y, d);
    vstd::arithmetic::div_mod::lemma_mod_bound(y, d);
    assert(d * q + r + d * k == (q + k) * d + r) by (nonlinear_arith);
    vstd::arithmetic::div_mod::lemma_fundamental_div_mod_converse(y + d * k, d, q + k, r);
}

/// Day `doe` of era number `era`, counted from March of the year 0.
proof fn lemma_day(day: int, era: int, doe: int)
    requires
        0 <= doe < 146_097,
        day + 719_468 == era * 146_097 + doe,
    ensures
        ({
            let y = march_year(doe);
            let found = march_date(y + 400 * era, doe - march_days(y));
            is_date(found) && epoch_day(found) == day && found == date_of(day)
        }),
        is_date(date_of(day)),
        epoch_day(date_of(day)) == day,
{
    let y = march_year(doe);
    let doy = doe - march_days(y);
    lemma_march_year(doe);
    lemma_day_doy(doe);
    lemma_era(era, y);
    lemma_march_date(y + 400 * era, doy);
    let found = march_date(y + 400 * era, doy);
    assert(epoch_day(found) == day);
    date_is_unique(found, date_of(day));
}

/// The largest whole number of times that 146097 goes into `n`.
fn eras(n: i64) -> (r: i64)
    ensures
        r * 146_097 <= n < r * 146_097 + 146_097,
{
    if n >= 0 {
        n / 146_097
    } else {
        let k: i64 = -(n + 1);
        -(k / 146_097) - 1
    }
}

/// The date that is `z` days behind 1970-01-01: its year, month and day.
pub fn civil_from_days(z: i64) -> (r: (i64, u32, u32))
    requires
        z <= i64::MAX - 719_468,
    ensures
        date(r.0, r.1, r.2) == date_of(z as int),
        is_date(date(r.0, r.1, r.2)),
        epoch_day(date(r.0, r.1, r.2)) == z,
{
    let shifted: i64 = z + 719_468;
    let era: i64 = eras(shifted);
    let doe: i64 = (shifted as i128 - era as i128 * 146_097) as i64;
    let yoe: i64 = (doe - doe / 1460 + doe / 36_524 - doe / 146_096) / 365;
    proof {
        lemma_march_year(doe as int);
        assert(yoe == march_year(doe as int));
    }
    let y: i64 = yoe + era * 400;
    let doy: i64 = doe - (365 * yoe + yoe / 4 - yoe / 100);
    proof {
        lemma_day_doy(doe as int);
        lemma_day(z as int, era as int, doe as int);
    }
    let mp: i64 = (5 * doy + 2) / 153;
    let d: i64 = doy - (153 * mp + 2) / 5 + 1;
    let m: i64 = if mp < 10 {
        mp + 3
    } else {
        mp - 9
    };
    let year: i64 = if m <= 2 {
        y + 1
    } else {
        y
    };
    proof {
        assert(march_date(y as int, doy as int) == date(year, m as u32, d as u32));
    }
    (year, m as u32, d as u32)
}

/// Every day has a date.
pub proof fn every_day_has_a_date(day: int)
    ensures
        is_date(date_of(day)),
        epoch_day(date_of(day)) == day,
{
    let era = (day + 719_468) / 146_097;
    let doe = (day + 719_468) % 146_097;
    lemma_day(day, era, doe);
}

/// The moment `secs` seconds behind 1970-01-01T00:00:00Z in ISO 8601.
pub open spec fn iso_text(secs: int) -> Seq<char> {
    let date = date_of(secs / 86_400);
    let time = secs % 86_400;
    padded_decimal(date.year, 4) + seq!['-'] + padded_decimal(date.month, 2) + seq!['-']
        + padded_decimal(date.day, 2) + seq!['T'] + padded_decimal(time / 3600, 2) + seq![':']
        + padded_decimal(time % 3600 / 60, 2) + seq![':'] + padded_decimal(time % 60, 2)
        + seq!['Z']
}

fn two_digits(out: &mut String, n: i64)
    ensures
        final(out)@ == old(out)@ + padded_decimal(n as int, 2),
{
    out.append(padded_decimal_of(n, 2).as_str());
}

/// The moment `secs` seconds behind 1970-01-01T00:00:00Z in ISO 8601, such as
/// `2026-08-24T12:34:56Z`.
pub fn iso8601(secs: i64) -> (r: String)
    ensures
        r@ == iso_text(secs as int),
{
    let (days, time): (i64, i64) = if secs >= 0 {
        (secs / 86_400, secs % 86_400)
    } else {
        let k: i64 = -(secs + 1);
        (-(k / 86_400) - 1, 86_399 - k % 86_400)
    };
    assert(days == secs as int / 86_400);
    assert(time == secs as int % 86_400);
    let (year, month, day) = civil_from_days(days);
    let mut out = padded_decimal_of(year, 4);
    out.push('-');
    two_digits(&mut out, month as i64);
    out.push('-');
    two_digits(&mut out, day as i64);
    out.push('T');
    two_digits(&mut out, time / 3600);
    out.push(':');
    two_digits(&mut out, time % 3600 / 60);
    out.push(':');
    two_digits(&mut out, time % 60);
    out.push('Z');
    assert(out@ =~= iso_text(secs as int));
    out
}

/// A moment is written with its date and its time of the day, of which every second has
/// exactly one: four digits for the year, two for everything else.
pub proof fn moment_is_written(d: Date, h: nat, m: nat, s: nat)
    requires
        is_date(d),
        0 <= d.year < 10000,
        h < 24,
        m < 60,
        s < 60,
    ensures
        ({
            let text = iso_text(epoch_day(d) * 86_400 + h * 3600 + m * 60 + s);
            &&& text.len() == 20
            &&& digits_value(text.subrange(0, 4)) == d.year
            &&& text[4] == '-'
            &&& digits_value(text.subrange(5, 7)) == d.month
            &&& text[7] == '-'
            &&& digits_value(text.subrange(8, 10)) == d.day
            &&& text[10] == 'T'
            &&& digits_value(text.subrange(11, 13)) == h
            &&& text[13] == ':'
            &&& digits_value(text.subrange(14, 16)) == m
            &&& text[16] == ':'
            &&& digits_value(text.subrange(17, 19)) == s
            &&& text[19] == 'Z'
        }),
{
    let secs = epoch_day(d) * 86_400 + h * 3600 + m * 60 + s;
    let time = h * 3600 + m * 60 + s;
    assert(secs / 86_400 == epoch_day(d) && secs % 86_400 == time);
    every_day_has_a_date(epoch_day(d));
    date_is_unique(d, date_of(epoch_day(d)));
    assert(time / 3600 == h && time % 3600 / 60 == m && time % 60 == s);
    assert(d.day <= 31);
    let year = padded_decimal(d.year, 4);
    let month = padded_decimal(d.month, 2);
    let day = padded_decimal(d.day, 2);
    let hour = padded_decimal(h as int, 2);
    let minute = padded_decimal(m as int, 2);
    let second = padded_decimal(s as int, 2);
    padded_decimal_reads_back(d.year as nat, 4);
    small_numbers_are_short(d.year as nat);
    lemma_pair_of_digits(d.month as nat);
    lemma_pair_of_digits(d.day as nat);
    lemma_pair_of_digits(h);
    lemma_pair_of_digits(m);
    lemma_pair_of_digits(s);
    let text = iso_text(secs);
    assert(text.subrange(0, 4) =~= year);
    assert(text.subrange(5, 7) =~= month);
    assert(text.subrange(8, 10) =~= day);
    assert(text.subrange(11, 13) =~= hour);
    assert(text.subrange(14, 16) =~= minute);
    assert(text.subrange(17, 19) =~= second);
}

proof fn lemma_pair_of_digits(n: nat)
    requires
        n < 100,
    ensures
        padded_decimal(n as int, 2).len() == 2,
        digits_value(padded_decimal(n as int, 2)) == n,
{
    padded_decimal_reads_back(n, 2);
    small_numbers_are_short(n);
}

} // verus!
