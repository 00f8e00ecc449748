//! Calendar dates: days since 1970-01-01 to proleptic Gregorian dates, and
//! the date and time texts that orders carry.

use vstd::prelude::*;
use crate::numfmt::{decimal, lemma_decimal_len, lemma_padded_denotes, padded, pow10, push_decimal, push_padded};
use crate::text::digits_value;
use crate::text::push_char;

verus! {

/// A leap year of the proleptic Gregorian calendar.
pub open spec fn is_leap_year(y: int) -> bool {
    (y % 4 == 0 && y % 100 != 0) || y % 400 == 0
}

/// The number of days of month `m` (1 to 12) of year `y`.
pub open spec fn days_in_month(y: int, m: int) -> int {
    if m == 2 {
        if is_leap_year(y) {
            29
        } else {
            28
        }
    } else if m == 4 || m == 6 || m == 9 || m == 11 {
        30
    } else {
        31
    }
}

/// The number of leap years among the years 1 to `y` (negated count of
/// those from `y + 1` to 0 when `y` is negative).
pub open spec fn leap_count(y: int) -> int {
    y / 4 - y / 100 + y / 400
}

/// Days from 1970-01-01 to the first of January of year `y`.
pub open spec fn days_before_year(y: int) -> int {
    365 * (y - 1970) + leap_count(y - 1) - leap_count(1969)
}

/// Days of year `y` before the first of month `m`.
pub open spec fn days_before_month(y: int, m: int) -> int {
    let common: int = if m <= 1 {
        0
    } else if m == 2 {
        31
    } else if m == 3 {
        59
    } else if m == 4 {
        90
    } else if m == 5 {
        120
    } else if m == 6 {
        151
    } else if m == 7 {
        181
    } else if m == 8 {
        212
    } else if m == 9 {
        243
    } else if m == 10 {
        273
    } else if m == 11 {
        304
    } else {
        334
    };
    common + if m > 2 && is_leap_year(y) {
        1int
    } else {
        0int
    }
}

/// A real date: a month from 1 to 12 and a day within that month.
pub open spec fn is_valid_date(y: int, m: int, d: int) -> bool {
    1 <= m <= 12 && 1 <= d <= days_in_month(y, m)
}

/// The number of days from 1970-01-01 to the date `y-m-d`.
pub open spec fn days_from_civil(y: int, m: int, d: int) -> int {
    days_before_year(y) + days_before_month(y, m) + d - 1
}

/// Days of an era before year `k` of it, counting from the first of March.
pub open spec fn era_days_before(k: int) -> int {
    365 * k + k / 4 - k / 100
}

/// Within a 400-year era (from the first of March of a year divisible by
/// 400), day `doe` falls in year `yoe` of the era.
pub proof fn lemma_year_of_era(doe: int)
    requires
        0 <= doe <= 146096,
    ensures
        ({
            let yoe = (doe - doe / 1460 + doe / 36524 - doe / 146096) / 365;
            &&& 0 <= yoe <= 399
            &&& era_days_before(yoe) <= doe
            &&& doe - era_days_before(yoe) <= 364 + if is_leap_year(yoe + 1) {
                1int
            } else {
                0int
            }
        }),
{
}

/// Days from the first of March to the first of the `mp`-th month after it.
pub open spec fn march_days_before(mp: int) -> int {
    (153 * mp + 2) / 5
}

/// Within a year counted from the first of March, day `doy` falls in month
/// `mp` (0 for March, 11 for February) on day `d`.
pub proof fn lemma_month_of_year(doy: int)
    requires
        0 <= doy <= 365,
    ensures
        ({
            let mp = (5 * doy + 2) / 153;
            let d = doy - march_days_before(mp) + 1;
            &&& 0 <= mp <= 11
            &&& 1 <= d <= 31
            &&& (mp == 1 || mp == 3 || mp == 6 || mp == 8) ==> d <= 30
            &&& mp == 11 ==> d == doy - 336
        }),
{
}

/// Leap years repeat every 400 years.
pub proof fn lemma_leap_period(e: int, k: int)
    ensures
        is_leap_year(400 * e + k) == is_leap_year(k),
{
}

/// The first of March of year `400 * e + yoe` (with `yoe` from 0 to 399)
/// lies `146097 * e + era_days_before(yoe) - 719468` days after 1970-01-01.
pub proof fn lemma_march_first(e: int, yoe: int)
    requires
        0 <= yoe <= 399,
    ensures
        days_before_year(400 * e + yoe) + 59 + (if is_leap_year(400 * e + yoe) {
            1int
        } else {
            0int
        }) == 146097 * e + era_days_before(yoe) - 719468,
{
    lemma_leap_period(e, yoe);
    let x = yoe - 1;
    lemma_div_shift(x, 4, 100 * e);
    lemma_div_shift(x, 100, 4 * e);
    lemma_div_shift(x, 400, e);
    assert(400 * e + yoe - 1 == 4 * (100 * e) + x);
    assert(400 * e + yoe - 1 == 100 * (4 * e) + x);
    assert(400 * e + yoe - 1 == 400 * e + x);
    assert(leap_count(400 * e + yoe - 1) == 97 * e + leap_count(x));
    lemma_leap_count_in_era(yoe);
}

/// Adding whole multiples of the divisor shifts the quotient.
pub proof fn lemma_div_shift(a: int, c: int, k: int)
    requires
        c > 0,
    ensures
        (c * k + a) / c == k + a / c,
{
    assert((c * k + a) / c == k + a / c) by (nonlinear_arith)
        requires
            c > 0,
    ;
}

/// The leap years of an era up to and including year `yoe` of it.
pub proof fn lemma_leap_count_in_era(yoe: int)
    requires
        0 <= yoe <= 399,
    ensures
        leap_count(yoe - 1) + (if is_leap_year(yoe) {
            1int
        } else {
            0int
        }) == yoe / 4 - yoe / 100,
{
}

/// The date `days` days after 1970-01-01 (before it, when negative), in the
/// proleptic Gregorian calendar: (year, month, day).
pub fn civil_from_days(z: i64) -> (r: (i64, u32, u32))
    requires
        z <= i64::MAX - 719468,
    ensures
        is_valid_date(r.0 as int, r.1 as int, r.2 as int),
        days_from_civil(r.0 as int, r.1 as int, r.2 as int) == z,
{
    let ghost z0 = z as int;
    let z = z + 719468;
    let num = if z >= 0 { z } else { z - 146096 };
    let era = num / 146097;
    proof {
        if z >= 0 {
            assert(era as int == (z as int) / 146097);
        } else {
            assert(era as int == -((-num as int) / 146097));
            assert(era as int == (z as int) / 146097);
        }
    }
    let doe = (z - era * 146097) as u64;
    let yoe = (doe - doe / 1460 + doe / 36524 - doe / 146096) / 365;
    proof {
        lemma_year_of_era(doe as int);
    }
    let y = yoe as i64 + era * 400;
    let doy = doe - (365 * yoe + yoe / 4 - yoe / 100);
    let mp = (5 * doy + 2) / 153;
    proof {
        lemma_month_of_year(doy as int);
    }
    let d = (doy - (153 * mp + 2) / 5 + 1) as u32;
    let m = (if mp < 10 { mp + 3 } else { mp - 9 }) as u32;
    let year = if m <= 2 { y + 1 } else { y };
    proof {
        let e = era as int;
        let k = yoe as int;
        lemma_march_first(e, k);
        lemma_month_tables(mp as int);
        assert(z0 == days_before_year(y as int) + 59 + (if is_leap_year(y as int) {
            1int
        } else {
            0int
        }) + doy);
        if m <= 2 {
            lemma_year_length(y as int + 1);
            lemma_leap_period(e, k + 1);
            assert(400 * e + (k + 1) == y + 1);
        }
    }
    (year, m, d)
}

/// The month tables agree: month `mp` counted from March is calendar month
/// `mp + 3` (March to December) or `mp - 9` (January, February).
pub proof fn lemma_month_tables(mp: int)
    requires
        0 <= mp <= 11,
    ensures
        mp <= 9 ==> days_before_month(1, mp + 3) == 59 + march_days_before(mp),
        mp >= 10 ==> days_before_month(1, mp - 9) == march_days_before(mp) - 306,
        forall|y: int|
            #![trigger days_before_month(y, mp + 3)]
            mp <= 9 ==> days_before_month(y, mp + 3) == days_before_month(1, mp + 3) + if is_leap_year(y) {
                1int
            } else {
                0int
            },
        forall|y: int|
            #![trigger days_before_month(y, mp - 9)]
            mp >= 10 ==> days_before_month(y, mp - 9) == days_before_month(1, mp - 9),
{
}

/// Consecutive new years lie 365 days apart, 366 when the earlier year is a
/// leap year.
pub proof fn lemma_year_length(y: int)
    ensures
        days_before_year(y) == days_before_year(y - 1) + 365 + if is_leap_year(y - 1) {
            1int
        } else {
            0int
        },
{
}

/// Within a year, the days before a day of a real date are fewer than the
/// days of the year.
pub proof fn lemma_day_of_year_bounds(y: int, m: int, d: int)
    requires
        is_valid_date(y, m, d),
    ensures
        0 <= days_before_month(y, m) + d - 1 < 365 + if is_leap_year(y) {
            1int
        } else {
            0int
        },
{
}

/// A later month of the same year starts after every day of an earlier one.
pub proof fn lemma_month_order(y: int, m1: int, m2: int)
    requires
        1 <= m1 < m2 <= 12,
    ensures
        days_before_month(y, m1) + days_in_month(y, m1) <= days_before_month(y, m2),
{
}

/// Later years start later: by a whole year at least.
pub proof fn lemma_year_order(y1: int, y2: int)
    requires
        y1 < y2,
    ensures
        days_before_year(y1) + 365 + (if is_leap_year(y1) {
            1int
        } else {
            0int
        }) <= days_before_year(y2),
    decreases y2 - y1,
{
    lemma_year_length(y2);
    if y1 < y2 - 1 {
        lemma_year_order(y1, y2 - 1);
    }
}

/// The day count keeps the order of dates: a strictly earlier real date has
/// a strictly smaller day number.
pub proof fn lemma_days_from_civil_increasing(y1: int, m1: int, d1: int, y2: int, m2: int, d2: int)
    requires
        is_valid_date(y1, m1, d1),
        is_valid_date(y2, m2, d2),
        y1 < y2 || (y1 == y2 && m1 < m2) || (y1 == y2 && m1 == m2 && d1 < d2),
    ensures
        days_from_civil(y1, m1, d1) < days_from_civil(y2, m2, d2),
{
    lemma_day_of_year_bounds(y1, m1, d1);
    lemma_day_of_year_bounds(y2, m2, d2);
    if y1 < y2 {
        lemma_year_order(y1, y2);
    } else if m1 < m2 {
        lemma_month_order(y1, m1, m2);
    }
}

/// Distinct real dates have distinct day numbers.
pub proof fn lemma_days_from_civil_injective(y1: int, m1: int, d1: int, y2: int, m2: int, d2: int)
    requires
        is_valid_date(y1, m1, d1),
        is_valid_date(y2, m2, d2),
        days_from_civil(y1, m1, d1) == days_from_civil(y2, m2, d2),
    ensures
        y1 == y2 && m1 == m2 && d1 == d2,
{
    if y1 < y2 || (y1 == y2 && m1 < m2) || (y1 == y2 && m1 == m2 && d1 < d2) {
        lemma_days_from_civil_increasing(y1, m1, d1, y2, m2, d2);
    } else if y2 < y1 || (y1 == y2 && m2 < m1) || (y1 == y2 && m1 == m2 && d2 < d1) {
        lemma_days_from_civil_increasing(y2, m2, d2, y1, m1, d1);
    }
}

/// The real date that lies `z` days after 1970-01-01.
pub open spec fn date_of_day(z: int) -> (int, int, int) {
    choose|t: (int, int, int)| is_valid_date(t.0, t.1, t.2) && days_from_civil(t.0, t.1, t.2) == z
}

/// Every day number has exactly one date, and `civil_from_days` finds it.
pub proof fn lemma_date_of_day(z: int, y: int, m: int, d: int)
    requires
        is_valid_date(y, m, d),
        days_from_civil(y, m, d) == z,
    ensures
        date_of_day(z) == (y, m, d),
{
    let w = (y, m, d);
    assert(is_valid_date(w.0, w.1, w.2) && days_from_civil(w.0, w.1, w.2) == z);
    let t = date_of_day(z);
    lemma_days_from_civil_injective(t.0, t.1, t.2, y, m, d);
}

/// Dates on or after 1970-01-01 fall in 1970 or later.
pub proof fn lemma_year_from_1970(y: int, m: int, d: int)
    requires
        is_valid_date(y, m, d),
        days_from_civil(y, m, d) >= 0,
    ensures
        y >= 1970,
{
    if y < 1970 {
        lemma_day_of_year_bounds(y, m, d);
        lemma_year_order(y, 1970);
    }
}

/// The date of day `days` as a checked triple with a year of 1970 or later.
fn date_at(days: u64) -> (r: (u64, u64, u64))
    requires
        days <= 1_000_000_000_000_000,
    ensures
        date_of_day(days as int) == (r.0 as int, r.1 as int, r.2 as int),
        1 <= r.1 <= 12,
        1 <= r.2 <= 31,
{
    let (y, m, d) = civil_from_days(days as i64);
    proof {
        lemma_date_of_day(days as int, y as int, m as int, d as int);
        lemma_year_from_1970(y as int, m as int, d as int);
    }
    (y as u64, m as u64, d as u64)
}

/// `YYYY-MM-DDTHH:MM:SSZ` for the instant `secs` seconds after the epoch.
pub open spec fn timestamp_text(secs: nat) -> Seq<char> {
    let (y, m, d) = date_of_day((secs / 86400) as int);
    let sod = secs % 86400;
    padded(y as nat, 4) + seq!['-'] + padded(m as nat, 2) + seq!['-'] + padded(d as nat, 2) + seq![
        'T',
    ] + padded(sod / 3600, 2) + seq![':'] + padded((sod % 3600) / 60, 2) + seq![':'] + padded(
        sod % 60,
        2,
    ) + seq!['Z']
}

/// `Y 年 M 月 D 日` for the day `secs` seconds after the epoch falls on.
pub open spec fn date_cn_text(secs: nat) -> Seq<char> {
    let (y, m, d) = date_of_day((secs / 86400) as int);
    decimal(y as nat) + seq![' ', '年', ' '] + decimal(m as nat) + seq![' ', '月', ' '] + decimal(
        d as nat,
    ) + seq![' ', '日']
}

/// `YYYYMMDD` for the day `secs` seconds after the epoch falls on.
pub open spec fn date_compact_text(secs: nat) -> Seq<char> {
    let (y, m, d) = date_of_day((secs / 86400) as int);
    padded(y as nat, 4) + padded(m as nat, 2) + padded(d as nat, 2)
}

/// The ISO 8601 UTC timestamp of the instant `secs` seconds after the epoch.
pub fn timestamp_at(secs: u64) -> (r: String)
    ensures
        r@ == timestamp_text(secs as nat),
{
    let days = secs / 86400;
    let sod = secs % 86400;
    let (y, m, d) = date_at(days);
    let mut s = String::new();
    push_padded(&mut s, y, 4);
    push_char(&mut s, '-');
    push_padded(&mut s, m, 2);
    push_char(&mut s, '-');
    push_padded(&mut s, d, 2);
    push_char(&mut s, 'T');
    push_padded(&mut s, sod / 3600, 2);
    push_char(&mut s, ':');
    push_padded(&mut s, (sod % 3600) / 60, 2);
    push_char(&mut s, ':');
    push_padded(&mut s, sod % 60, 2);
    push_char(&mut s, 'Z');
    assert(s@ =~= timestamp_text(secs as nat));
    s
}

/// The date, written `Y 年 M 月 D 日`, of the day `secs` seconds after the
/// epoch falls on.
pub fn date_cn_at(secs: u64) -> (r: String)
    ensures
        r@ == date_cn_text(secs as nat),
{
    let (y, m, d) = date_at(secs / 86400);
    let mut s = String::new();
    push_decimal(&mut s, y);
    push_char(&mut s, ' ');
    push_char(&mut s, '年');
    push_char(&mut s, ' ');
    push_decimal(&mut s, m);
    push_char(&mut s, ' ');
    push_char(&mut s, '月');
    push_char(&mut s, ' ');
    push_decimal(&mut s, d);
    push_char(&mut s, ' ');
    push_char(&mut s, '日');
    assert(s@ =~= date_cn_text(secs as nat));
    s
}

/// The date, written `YYYYMMDD`, of the day `secs` seconds after the epoch
/// falls on.
pub fn date_compact_at(secs: u64) -> (r: String)
    ensures
        r@ == date_compact_text(secs as nat),
{
    let (y, m, d) = date_at(secs / 86400);
    let mut s = String::new();
    push_padded(&mut s, y, 4);
    push_padded(&mut s, m, 2);
    push_padded(&mut s, d, 2);
    assert(s@ =~= date_compact_text(secs as nat));
    s
}

/// A point in time of the system clock.
#[verifier::external_type_specification]
#[verifier::external_body]
pub struct ExSystemTime(std::time::SystemTime);

/// The error of a time before the Unix epoch.
#[verifier::external_type_specification]
#[verifier::external_body]
pub struct ExSystemTimeError(std::time::SystemTimeError);

/// `SystemTime::now`: the time by the system clock. Nothing is promised of
/// it.
#[verifier::external_body]
fn system_now() -> std::time::SystemTime {
    std::time::SystemTime::now()
}

/// `SystemTime::duration_since` with `UNIX_EPOCH`: the time since the Unix
/// epoch, an error for a time before it. Nothing is promised of either.
#[verifier::external_body]
fn since_epoch(t: &std::time::SystemTime) -> Result<std::time::Duration, std::time::SystemTimeError> {
    t.duration_since(std::time::UNIX_EPOCH)
}

/// `Duration::as_secs`: the whole seconds of a duration. Nothing is promised
/// of the value, as the duration is the clock's.
#[verifier::external_body]
fn whole_seconds(d: &std::time::Duration) -> u64 {
    d.as_secs()
}

/// Seconds since the Unix epoch by the system clock; 0 for a clock set
/// before the epoch.
fn unix_seconds_now() -> u64 {
    let t = system_now();
    match since_epoch(&t) {
        Ok(d) => whole_seconds(&d),
        Err(_) => 0,
    }
}

/// The current time as an ISO 8601 UTC timestamp, `YYYY-MM-DDTHH:MM:SSZ`.
pub fn timestamp_now() -> (r: String)
    ensures
        exists|secs: u64| r@ == timestamp_text(secs as nat),
{
    let secs = unix_seconds_now();
    timestamp_at(secs)
}

/// Today's date, written `Y 年 M 月 D 日`.
pub fn today_cn() -> (r: String)
    ensures
        exists|secs: u64| r@ == date_cn_text(secs as nat),
{
    let secs = unix_seconds_now();
    date_cn_at(secs)
}

/// Today's date, written `YYYYMMDD`.
pub fn today_compact() -> (r: String)
    ensures
        exists|secs: u64| r@ == date_compact_text(secs as nat),
{
    let secs = unix_seconds_now();
    date_compact_at(secs)
}

/// Zero-padded to `w` places, a number below `10^w` takes exactly `w`
/// characters and reads back as itself.
proof fn lemma_padded_field(n: nat, w: nat)
    requires
        1 <= w <= 4,
        n < pow10(w),
    ensures
        padded(n, w as int).len() == w,
        digits_value(padded(n, w as int)) == n,
{
    lemma_decimal_len(n, w);
    lemma_padded_denotes(n, w as int);
}

/// A timestamp denotes its instant: for the date `y-m-d` of the day the
/// instant falls on (a year below 10000), the text is `YYYY-MM-DDTHH:MM:SSZ`
/// whose fields read back as the year, month, day, hour, minute and second,
/// and those give back the seconds since the epoch.
pub proof fn lemma_timestamp_denotes(secs: nat, y: int, m: int, d: int)
    requires
        is_valid_date(y, m, d),
        days_from_civil(y, m, d) == secs / 86400,
        y < 10000,
    ensures
        timestamp_text(secs).len() == 20,
        timestamp_text(secs)[4] == '-',
        timestamp_text(secs)[7] == '-',
        timestamp_text(secs)[10] == 'T',
        timestamp_text(secs)[13] == ':',
        timestamp_text(secs)[16] == ':',
        timestamp_text(secs)[19] == 'Z',
        digits_value(timestamp_text(secs).subrange(0, 4)) == y,
        digits_value(timestamp_text(secs).subrange(5, 7)) == m,
        digits_value(timestamp_text(secs).subrange(8, 10)) == d,
        digits_value(timestamp_text(secs).subrange(11, 13)) < 24,
        digits_value(timestamp_text(secs).subrange(14, 16)) < 60,
        digits_value(timestamp_text(secs).subrange(17, 19)) < 60,
        days_from_civil(y, m, d) * 86400 + digits_value(timestamp_text(secs).subrange(11, 13)) * 3600
            + digits_value(timestamp_text(secs).subrange(14, 16)) * 60 + digits_value(
            timestamp_text(secs).subrange(17, 19),
        ) == secs,
{
    lemma_date_of_day((secs / 86400) as int, y, m, d);
    lemma_year_from_1970(y, m, d);
    reveal_with_fuel(pow10, 5);
    let sod = secs % 86400;
    let h = sod / 3600;
    let mi = (sod % 3600) / 60;
    let sc = sod % 60;
    lemma_padded_field(y as nat, 4);
    lemma_padded_field(m as nat, 2);
    lemma_padded_field(d as nat, 2);
    lemma_padded_field(h, 2);
    lemma_padded_field(mi, 2);
    lemma_padded_field(sc, 2);
    let py = padded(y as nat, 4);
    let pm = padded(m as nat, 2);
    let pd = padded(d as nat, 2);
    let ph = padded(h, 2);
    let pmi = padded(mi, 2);
    let ps = padded(sc, 2);
    let t = timestamp_text(secs);
    assert(t == py + seq!['-'] + pm + seq!['-'] + pd + seq!['T'] + ph + seq![':'] + pmi + seq![':']
        + ps + seq!['Z']);
    assert(t.subrange(0, 4) =~= py);
    assert(t.subrange(5, 7) =~= pm);
    assert(t.subrange(8, 10) =~= pd);
    assert(t.subrange(11, 13) =~= ph);
    assert(t.subrange(14, 16) =~= pmi);
    assert(t.subrange(17, 19) =~= ps);
    assert(secs == (secs / 86400) * 86400 + sod);
    assert(sod == h * 3600 + mi * 60 + sc);
}

/// A compact date denotes its day: for the date `y-m-d` of the day the
/// instant falls on (a year below 10000), the text is `YYYYMMDD` whose parts
/// read back as the year, month and day.
pub proof fn lemma_date_compact_denotes(secs: nat, y: int, m: int, d: int)
    requires
        is_valid_date(y, m, d),
        days_from_civil(y, m, d) == secs / 86400,
        y < 10000,
    ensures
        date_compact_text(secs).len() == 8,
        digits_value(date_compact_text(secs).subrange(0, 4)) == y,
        digits_value(date_compact_text(secs).subrange(4, 6)) == m,
        digits_value(date_compact_text(secs).subrange(6, 8)) == d,
{
    lemma_date_of_day((secs / 86400) as int, y, m, d);
    lemma_year_from_1970(y, m, d);
    reveal_with_fuel(pow10, 5);
    lemma_padded_field(y as nat, 4);
    lemma_padded_field(m as nat, 2);
    lemma_padded_field(d as nat, 2);
    let t = date_compact_text(secs);
    assert(t.subrange(0, 4) =~= padded(y as nat, 4));
    assert(t.subrange(4, 6) =~= padded(m as nat, 2));
    assert(t.subrange(6, 8) =~= padded(d as nat, 2));
}

/// The date in Chinese form names the year, month and day of the day the
/// instant falls on: `Y 年 M 月 D 日`.
pub proof fn lemma_date_cn_names_the_day(secs: nat, y: int, m: int, d: int)
    requires
        is_valid_date(y, m, d),
        days_from_civil(y, m, d) == secs / 86400,
    ensures
        date_cn_text(secs) == decimal(y as nat) + " 年 "@ + decimal(m as nat) + " 月 "@ + decimal(
            d as nat,
        ) + " 日"@,
{
    lemma_date_of_day((secs / 86400) as int, y, m, d);
    reveal_strlit(" 年 ");
    reveal_strlit(" 月 ");
    reveal_strlit(" 日");
    assert(" 年 "@ =~= seq![' ', '年', ' ']);
    assert(" 月 "@ =~= seq![' ', '月', ' ']);
    assert(" 日"@ =~= seq![' ', '日']);
}

} // verus!
