//! Log timestamps: a UTC date and time of day, with milliseconds, from the
//! seconds since the Unix epoch.

use vstd::prelude::*;
use crate::ascii::{ascii_chars, all_ascii, string_from_ascii};
use crate::decimal::{
    all_digits, decimal_digits, decimal_value, is_digit, lemma_decimal_digits,
    lemma_decimal_digits_len, lemma_parse_padded_decimal, padded_decimal, pow10,
    push_padded_decimal, unsigned_literal_digits,
};

verus! {

/// Rust's `/` on signed integers: the quotient rounded toward zero.
pub open spec fn trunc_div(a: int, b: int) -> int {
    if a >= 0 {
        a / b
    } else {
        -((-a) / b)
    }
}

/// The proleptic Gregorian date, as (year, month, day), of the day that is
/// `days` days after 1970-01-01 (by the days-to-civil algorithm that counts
/// in 400-year eras of 146097 days starting on March 1).
pub open spec fn civil_from_days(days: int) -> (int, int, int) {
    let z = days + 719468;
    let era = z / 146097;
    let doe = z - era * 146097;
    let yoe = (doe - doe / 1460 + doe / 36524 - doe / 146096) / 365;
    let y = yoe + era * 400;
    let doy = doe - (365 * yoe + yoe / 4 - yoe / 100);
    let mp = (5 * doy + 2) / 153;
    let d = doy - (153 * mp + 2) / 5 + 1;
    let m = if mp < 10 {
        mp + 3
    } else {
        mp - 9
    };
    (if m <= 2 {
        y + 1
    } else {
        y
    }, m, d)
}

/// A leap year of the proleptic Gregorian calendar.
pub open spec fn is_leap_year(y: int) -> bool {
    y % 4 == 0 && (y % 100 != 0 || y % 400 == 0)
}

/// The number of days in month `m` (1 to 12) of year `y`.
pub open spec fn days_in_month(y: int, m: int) -> int {
    if m == 2 {
        if is_leap_year(y) {
            29
        } else {
            28
        }
    } else if m == 4 || m == 6 || m == 9 || m == 11 {
        30
    } else {
        31
    }
}

/// The number of leap years among years 1 to `n` (extended to all `n` by
/// the same floor-division count).
pub open spec fn leap_years_through(n: int) -> int {
    n / 4 - n / 100 + n / 400
}

/// The number of days from 1970-01-01 to January 1 of year `y` (negative
/// before 1970).
pub open spec fn days_before_year(y: int) -> int {
    365 * (y - 1970) + leap_years_through(y - 1) - leap_years_through(1969)
}

/// The number of days in year `y` before the first of month `m`.
pub open spec fn days_before_month(y: int, m: int) -> int
    decreases m,
{
    if m <= 1 {
        0
    } else {
        days_before_month(y, m - 1) + days_in_month(y, m - 1)
    }
}

/// The number of days from 1970-01-01 to the date `y`-`m`-`d`.
pub open spec fn days_from_civil(y: int, m: int, d: int) -> int {
    days_before_year(y) + days_before_month(y, m) + d - 1
}

/// Within a 400-year era counted from March 1, day `doe` falls in year
/// `yoe` of the era, on day `doy` of that March-to-February year, which is
/// a day of the year: 366 days long when the February it ends with has a
/// leap day.
proof fn lemma_year_of_era(doe: int)
    requires
        0 <= doe < 146097,
    ensures
        ({
            let yoe = (doe - doe / 1460 + doe / 36524 - doe / 146096) / 365;
            let doy = doe - (365 * yoe + yoe / 4 - yoe / 100);
            &&& 0 <= yoe < 400
            &&& 0 <= doy
            &&& doy < 365 + (if is_leap_year(yoe + 1) {
                1int
            } else {
                0int
            })
        }),
{
    if doe == 146096 {
        assert((doe - doe / 1460 + doe / 36524 - doe / 146096) / 365 == 399);
    } else {
        let c = doe / 36524;
        let r1 = doe % 36524;
        let t = r1 / 1461;
        let r2 = r1 % 1461;
        let j = if r2 / 365 < 3 {
            r2 / 365
        } else {
            3
        };
        let doy = r2 - 365 * j;
        assert(0 <= c <= 3);
        assert(0 <= t <= 24);
        assert(0 <= doy <= 365);
        assert(doe == 36524 * c + 1461 * t + 365 * j + doy);
        let e: int = if 24 * c + t + 365 * j + doy >= 1460 {
            1
        } else {
            0
        };
        assert(doe / 146096 == 0);
        assert(doe / 36524 == c);
        assert(doe / 1460 == 25 * c + t + e);
        let yoe = 100 * c + 4 * t + j;
        assert(doe - doe / 1460 + doe / 36524 - doe / 146096 == 365 * yoe + doy - e);
        assert(0 <= doy - e < 365);
        assert((doe - doe / 1460 + doe / 36524 - doe / 146096) / 365 == yoe);
        assert(yoe / 4 == 25 * c + t);
        assert(yoe / 100 == c);
        if doy == 365 {
            assert(r2 == 1460);
            assert(t <= 23);
            assert(is_leap_year(yoe + 1));
        }
    }
}

/// Day `doy` of a March-to-February year of 365 + `leap` days is day `d`
/// of month `mp` counted from March (0) to February (11), which starts
/// `(153 * mp + 2) / 5` days into the year.
proof fn lemma_month_of_year(doy: int, leap: int)
    requires
        0 <= leap <= 1,
        0 <= doy < 365 + leap,
    ensures
        ({
            let mp = (5 * doy + 2) / 153;
            let d = doy - (153 * mp + 2) / 5 + 1;
            let m = if mp < 10 {
                mp + 3
            } else {
                mp - 9
            };
            &&& 0 <= mp <= 11
            &&& 1 <= d
            &&& m == 2 ==> d <= 28 + leap
            &&& m != 2 ==> d <= days_in_month(0, m)
            &&& (153 * mp + 2) / 5 == (if mp < 10 {
                days_before_month(1, m) - 59
            } else {
                days_before_month(1, m) + 306
            })
        }),
{
    reveal_with_fuel(days_before_month, 13);
    let mp = (5 * doy + 2) / 153;
    assert(0 <= mp <= 11);
    assert(153 * mp <= 5 * doy + 2 < 153 * mp + 153);
}

/// `n` shifted by whole 400-year eras has 97 more leap years per era.
proof fn lemma_leap_years_eras(era: int, n: int)
    ensures
        leap_years_through(400 * era + n) == 97 * era + leap_years_through(n),
        is_leap_year(400 * era + n) == is_leap_year(n),
{
    assert((400 * era + n) / 4 == 100 * era + n / 4);
    assert((400 * era + n) / 100 == 4 * era + n / 100);
    assert((400 * era + n) / 400 == era + n / 400);
    assert((400 * era + n) % 4 == n % 4);
    assert((400 * era + n) % 100 == n % 100);
    assert((400 * era + n) % 400 == n % 400);
}

/// The leap years through `n` are those through `n - 1`, and `n` itself if
/// it is a leap year.
/// `n / d` is `(n - 1) / d`, plus one when `d` divides `n`.
proof fn lemma_div_step(n: int, d: int)
    requires
        d > 1,
    ensures
        n / d == (n - 1) / d + (if n % d == 0 {
            1int
        } else {
            0int
        }),
{
    let q = (n - 1) / d;
    let r = (n - 1) % d;
    assert(n - 1 == d * q + r && 0 <= r < d) by (nonlinear_arith)
        requires
            d > 1,
            q == (n - 1) / d,
            r == (n - 1) % d,
    ;
    if r == d - 1 {
        assert(n / d == q + 1 && n % d == 0) by (nonlinear_arith)
            requires
                n == d * q + d,
                d > 1,
        ;
    } else {
        assert(n / d == q && n % d == r + 1) by (nonlinear_arith)
            requires
                n == d * q + r + 1,
                0 <= r < d - 1,
                d > 1,
        ;
    }
}

/// The leap years through `n` are those through `n - 1`, and `n` itself if
/// it is a leap year.
proof fn lemma_leap_years_step(n: int)
    ensures
        leap_years_through(n) == leap_years_through(n - 1) + (if is_leap_year(n) {
            1int
        } else {
            0int
        }),
{
    lemma_div_step(n, 4);
    lemma_div_step(n, 100);
    lemma_div_step(n, 400);
    assert(n % 400 == 0 ==> n % 100 == 0 && n % 4 == 0) by (nonlinear_arith);
    assert(n % 100 == 0 ==> n % 4 == 0) by (nonlinear_arith);
}

/// The date that [`civil_from_days`] gives is a valid calendar date, and it
/// is exactly `days` days after 1970-01-01.
pub proof fn law_civil_date(days: int)
    ensures
        ({
            let (y, m, d) = civil_from_days(days);
            &&& 1 <= m <= 12
            &&& 1 <= d <= days_in_month(y, m)
            &&& days_from_civil(y, m, d) == days
        }),
{
    let z = days + 719468;
    let era = z / 146097;
    let doe = z - era * 146097;
    assert(0 <= doe < 146097);
    lemma_year_of_era(doe);
    let yoe = (doe - doe / 1460 + doe / 36524 - doe / 146096) / 365;
    let doy = doe - (365 * yoe + yoe / 4 - yoe / 100);
    let yy = yoe + era * 400;
    let leap: int = if is_leap_year(yoe + 1) {
        1
    } else {
        0
    };
    lemma_month_of_year(doy, leap);
    let mp = (5 * doy + 2) / 153;
    let d = doy - (153 * mp + 2) / 5 + 1;
    let m = if mp < 10 {
        mp + 3
    } else {
        mp - 9
    };
    lemma_leap_years_eras(era, yoe - 1);
    lemma_leap_years_eras(era, yoe);
    lemma_leap_years_eras(era, yoe + 1);
    lemma_leap_years_step(yoe);
    assert(yoe / 400 == 0);
    assert(leap_years_through(1969) == 477);
    reveal_with_fuel(days_before_month, 13);
    assert(civil_from_days(days) == (if m <= 2 {
        yy + 1
    } else {
        yy
    }, m, d));
    if m <= 2 {
        assert(days_before_month(yy + 1, m) == days_before_month(1, m));
        assert(days_in_month(yy + 1, m) <= 28 + leap || m != 2);
    } else {
        assert(days_before_month(yy, m) == days_before_month(1, m) + (if is_leap_year(yy) {
            1int
        } else {
            0int
        }));
    }
}

/// The year field: `{:04}` of a signed year, whose sign counts in the width.
pub open spec fn year_text(year: i32) -> Seq<u8> {
    if year < 0 {
        seq![45u8] + padded_decimal((-year) as nat, 3)
    } else {
        padded_decimal(year as nat, 4)
    }
}

/// The text `YYYY-MM-DD HH:MM:SS,mmm` for `secs` seconds and `millis`
/// milliseconds after the epoch: the date of day `secs` div 86400, the
/// seconds `secs` mod 60, the minutes and hours from `secs` divided
/// (rounding toward zero) by 60 and 3600, taken mod 60 and mod 24.
pub open spec fn timestamp_text(secs: i64, millis: u32) -> Seq<u8> {
    let s = secs % 60;
    let mi = trunc_div(secs as int, 60) % 60;
    let h = trunc_div(secs as int, 3600) % 24;
    let date = civil_from_days(secs / 86400);
    year_text(date.0 as i32) + seq![45u8] + padded_decimal(date.1 as nat, 2) + seq![45u8]
        + padded_decimal(date.2 as nat, 2) + seq![32u8] + padded_decimal(h as nat, 2) + seq![58u8]
        + padded_decimal(mi as nat, 2) + seq![58u8] + padded_decimal(s as nat, 2) + seq![44u8]
        + padded_decimal(millis as nat, 3)
}

proof fn lemma_digits_ascii(s: Seq<u8>)
    requires
        all_digits(s),
    ensures
        all_ascii(s),
{
    assert forall|i: int| 0 <= i < s.len() implies #[trigger] s[i] < 128 by {
        assert(is_digit(s[i]));
    }
}

proof fn lemma_padded_ascii(n: nat, w: nat)
    ensures
        all_ascii(padded_decimal(n, w)),
{
    lemma_parse_padded_decimal(n, w, n);
    lemma_digits_ascii(padded_decimal(n, w));
}

/// Floor division by a positive constant.
fn floor_div(a: i64, b: i64) -> (q: i64)
    requires
        b > 1,
    ensures
        q == a / b,
{
    match a.checked_div_euclid(b) {
        Some(q) => q,
        None => {
            assert(i64::MIN <= a / b <= i64::MAX) by (nonlinear_arith)
                requires
                    b > 1,
                    i64::MIN <= a <= i64::MAX,
            ;
            0
        },
    }
}

/// Remainder of floor division by a positive constant.
fn floor_rem(a: i64, b: i64) -> (r: i64)
    requires
        b > 1,
    ensures
        r == a % b,
        0 <= r < b,
{
    match a.checked_rem_euclid(b) {
        Some(r) => r,
        None => 0,
    }
}

/// The date of day `days` after the epoch (see [`civil_from_days`]).
fn civil_date(days: i64) -> (r: (i64, u64, u64))
    requires
        i64::MIN / 86400 <= days <= i64::MAX / 86400,
    ensures
        civil_from_days(days as int) == (r.0 as int, r.1 as int, r.2 as int),
        1 <= r.1 <= 12,
        1 <= r.2 <= 31,
{
    let z = days + 719468;
    let era = if z >= 0 {
        z
    } else {
        z - 146096
    } / 146097;
    assert(era == z / 146097) by (nonlinear_arith)
        requires
            era == trunc_div(if z >= 0 {
                z as int
            } else {
                z - 146096
            }, 146097),
    ;
    let doe_i = z - era * 146097;
    assert(0 <= doe_i < 146097) by (nonlinear_arith)
        requires
            era == z / 146097,
            doe_i == z - era * 146097,
    ;
    let doe = doe_i as u64;
    let yoe = (doe - doe / 1460 + doe / 36524 - doe / 146096) / 365;
    assert(yoe < 400) by (nonlinear_arith)
        requires
            doe < 146097,
            yoe == (doe - doe / 1460 + doe / 36524 - doe / 146096) / 365,
    ;
    let y: i64 = yoe as i64 + era * 400;
    assert(365 * yoe + yoe / 4 - yoe / 100 <= doe) by (nonlinear_arith)
        requires
            doe < 146097,
            yoe == (doe - doe / 1460 + doe / 36524 - doe / 146096) / 365,
    ;
    let doy = doe - (365 * yoe + yoe / 4 - yoe / 100);
    assert(doy < 366) by (nonlinear_arith)
        requires
            doe < 146097,
            yoe == (doe - doe / 1460 + doe / 36524 - doe / 146096) / 365,
            doy == doe - (365 * yoe + yoe / 4 - yoe / 100),
    ;
    let mp = (5 * doy + 2) / 153;
    assert((153 * mp + 2) / 5 <= doy && doy - (153 * mp + 2) / 5 < 31) by (nonlinear_arith)
        requires
            doy < 366,
            mp == (5 * doy + 2) / 153,
    ;
    let d = doy - (153 * mp + 2) / 5 + 1;
    let mo = if mp < 10 {
        mp + 3
    } else {
        mp - 9
    };
    let year = if mo <= 2 {
        y + 1
    } else {
        y
    };
    (year, mo, d)
}

/// Appends `{:04}` of a signed year.
fn push_year(out: &mut Vec<u8>, year: i32)
    ensures
        final(out)@ == old(out)@ + year_text(year),
{
    if year < 0 {
        out.push(45u8);
        let mag: i64 = -(year as i64);
        push_padded_decimal(out, mag as u128, 3);
        assert(final(out)@ =~= old(out)@ + year_text(year));
    } else {
        push_padded_decimal(out, year as u128, 4);
    }
}

/// Formats `secs` seconds and `millis` milliseconds after the Unix epoch as
/// `YYYY-MM-DD HH:MM:SS,mmm` in UTC (see [`timestamp_text`]).
pub fn fmt_timestamp(secs: i64, millis: u32) -> (text: String)
    ensures
        text@ == ascii_chars(timestamp_text(secs, millis)),
{
    let s = floor_rem(secs, 60);
    let mi = floor_rem(secs / 60, 60);
    let h = floor_rem(secs / 3600, 24);
    let days = floor_div(secs, 86400);
    assert(i64::MIN / 86400 <= days <= i64::MAX / 86400) by (nonlinear_arith)
        requires
            days == secs / 86400,
            i64::MIN <= secs <= i64::MAX,
    ;
    let (y, mo, d) = civil_date(days);
    let year: i32 = y as i32;
    let mut out: Vec<u8> = Vec::new();
    push_year(&mut out, year);
    out.push(45u8);
    push_padded_decimal(&mut out, mo as u128, 2);
    out.push(45u8);
    push_padded_decimal(&mut out, d as u128, 2);
    out.push(32u8);
    push_padded_decimal(&mut out, h as u128, 2);
    out.push(58u8);
    push_padded_decimal(&mut out, mi as u128, 2);
    out.push(58u8);
    push_padded_decimal(&mut out, s as u128, 2);
    out.push(44u8);
    push_padded_decimal(&mut out, millis as u128, 3);
    proof {
        let t = timestamp_text(secs, millis);
        assert(out@ =~= t);
        lemma_padded_ascii((-year) as nat, 3);
        lemma_padded_ascii(year as nat, 4);
        lemma_padded_ascii(mo as nat, 2);
        lemma_padded_ascii(d as nat, 2);
        lemma_padded_ascii(h as nat, 2);
        lemma_padded_ascii(mi as nat, 2);
        lemma_padded_ascii(s as nat, 2);
        lemma_padded_ascii(millis as nat, 3);
        assert(all_ascii(t));
    }
    string_from_ascii(out.as_slice())
}


#[verifier::external_type_specification]
#[verifier::external_body]
pub struct ExSystemTime(std::time::SystemTime);

#[verifier::external_type_specification]
#[verifier::external_body]
pub struct ExSystemTimeError(std::time::SystemTimeError);

/// `SystemTime::now`: the system clock's current time. Nothing is claimed
/// of it.
#[verifier::external_body]
fn clock_now() -> std::time::SystemTime {
    std::time::SystemTime::now()
}

/// `SystemTime::duration_since(UNIX_EPOCH)`: the time elapsed since the
/// Unix epoch, or an error if `t` is earlier. Nothing is claimed of it.
#[verifier::external_body]
fn since_epoch(t: std::time::SystemTime) -> Result<std::time::Duration, std::time::SystemTimeError> {
    t.duration_since(std::time::UNIX_EPOCH)
}

/// `Duration::as_secs`: the whole seconds of `d`. Nothing is claimed of it,
/// since the duration is opaque here.
#[verifier::external_body]
fn duration_secs(d: &std::time::Duration) -> u64 {
    d.as_secs()
}

/// `Duration::subsec_millis`: the milliseconds of `d` past its whole
/// seconds, which the documentation bounds below 1000.
#[verifier::external_body]
fn duration_subsec_millis(d: &std::time::Duration) -> (ms: u32)
    ensures
        ms < 1000,
{
    d.subsec_millis()
}

/// The time to show for a clock reading: the whole seconds and the
/// milliseconds since the Unix epoch that the clock gave, or the epoch
/// itself (zero, zero) when the clock is earlier than the epoch.
pub open spec fn shown_time(reading: Option<(u64, u32)>) -> (u64, u32) {
    match reading {
        Some(t) => t,
        None => (0, 0),
    }
}

/// The time to show for a clock reading (see [`shown_time`]).
pub fn clock_reading(reading: Option<(u64, u32)>) -> (t: (u64, u32))
    ensures
        t == shown_time(reading),
{
    match reading {
        Some(t) => t,
        None => (0, 0),
    }
}

/// The system clock's time since the Unix epoch as whole seconds and the
/// milliseconds past them, or `None` if the clock is earlier than the
/// epoch.
fn unix_time_now() -> (t: Option<(u64, u32)>)
    ensures
        t matches Some(x) ==> x.1 < 1000,
{
    match since_epoch(clock_now()) {
        Ok(d) => Some((duration_secs(&d), duration_subsec_millis(&d))),
        Err(_) => None,
    }
}

/// The log timestamp for a clock reading: the time of [`shown_time`]
/// formatted as `YYYY-MM-DD HH:MM:SS,mmm` in UTC, so a clock before the
/// epoch shows `1970-01-01 00:00:00,000`.
pub fn fmt_clock(reading: Option<(u64, u32)>) -> (text: String)
    ensures
        text@ == ascii_chars(
            timestamp_text(shown_time(reading).0 as i64, shown_time(reading).1),
        ),
{
    let (secs, millis) = clock_reading(reading);
    fmt_timestamp(secs as i64, millis)
}

/// The current UTC time as `YYYY-MM-DD HH:MM:SS,mmm` (see [`fmt_clock`]):
/// the text of some clock reading whose milliseconds are below 1000.
pub fn fmt_now() -> (text: String)
    ensures
        exists|reading: Option<(u64, u32)>|
            (reading matches Some(x) ==> x.1 < 1000) && text@ == ascii_chars(
                #[trigger] timestamp_text(shown_time(reading).0 as i64, shown_time(reading).1),
            ),
{
    let reading = unix_time_now();
    let text = fmt_clock(reading);
    assert((reading matches Some(x) ==> x.1 < 1000) && text@ == ascii_chars(
        timestamp_text(shown_time(reading).0 as i64, shown_time(reading).1),
    ));
    text
}

/// `a` comes strictly before `b` in lexicographic byte order.
pub open spec fn lex_lt(a: Seq<u8>, b: Seq<u8>) -> bool {
    exists|i: int| #![trigger a[i], b[i]] 0 <= i < a.len() && i < b.len() && a.take(i) == b.take(i) && a[i] < b[i]
}

/// `a` comes before `b` in lexicographic byte order, or equals it.
pub open spec fn text_le(a: Seq<u8>, b: Seq<u8>) -> bool {
    a == b || lex_lt(a, b)
}

/// `a` comes before `b` in lexicographic order of numbers, or equals it.
pub open spec fn tuple_le(a: Seq<nat>, b: Seq<nat>) -> bool {
    a == b || exists|k: int| #![trigger a[k], b[k]] 0 <= k < a.len() && k < b.len() && a.take(k) == b.take(k) && a[k] < b[k]
}

proof fn lemma_digits_order(a: Seq<u8>, b: Seq<u8>)
    requires
        all_digits(a),
        all_digits(b),
        a.len() == b.len(),
    ensures
        decimal_value(a) < decimal_value(b) ==> lex_lt(a, b),
        decimal_value(a) == decimal_value(b) ==> a == b,
    decreases a.len(),
{
    if a.len() > 0 {
        let a1 = a.drop_last();
        let b1 = b.drop_last();
        assert(all_digits(a1));
        assert(all_digits(b1));
        lemma_digits_order(a1, b1);
        let x = decimal_value(a1);
        let y = decimal_value(b1);
        let da = (a.last() - 48) as nat;
        let db = (b.last() - 48) as nat;
        assert(is_digit(a[a.len() - 1]) && is_digit(b[b.len() - 1]));
        assert(da < 10 && db < 10);
        assert(decimal_value(a) == x * 10 + da);
        assert(decimal_value(b) == y * 10 + db);
        if x < y {
            assert(x * 10 + da < y * 10 + db) by (nonlinear_arith)
                requires
                    x < y,
                    da < 10,
            ;
            let i = choose|i: int| #![trigger a1[i], b1[i]] 0 <= i < a1.len() && i < b1.len() && a1.take(i) == b1.take(i) && a1[i] < b1[i];
            assert(a.take(i) =~= a1.take(i));
            assert(b.take(i) =~= b1.take(i));
            assert(a[i] == a1[i] && b[i] == b1[i]);
        } else if x == y {
            assert(a1 == b1);
            if da < db {
                let i = a.len() - 1;
                assert(a.take(i) =~= a1);
                assert(b.take(i) =~= b1);
            }
            if da == db {
                assert(a =~= b) by {
                    assert(a == a1.push(a.last()));
                    assert(b == b1.push(b.last()));
                }
            }
        } else {
            assert(x * 10 + da > y * 10 + db) by (nonlinear_arith)
                requires
                    x > y,
                    db < 10,
            ;
        }
    }
}

/// Zero-padded decimals of one width are ordered as the numbers are.
proof fn lemma_padded_order(n1: nat, n2: nat, w: nat)
    requires
        n1 < pow10(w),
        n2 < pow10(w),
        w >= 1,
    ensures
        padded_decimal(n1, w).len() == w,
        n1 < n2 ==> lex_lt(padded_decimal(n1, w), padded_decimal(n2, w)),
        n1 == n2 ==> padded_decimal(n1, w) == padded_decimal(n2, w),
{
    lemma_decimal_digits_len(n1, w);
    lemma_decimal_digits_len(n2, w);
    lemma_parse_padded_decimal(n1, w, n1);
    lemma_parse_padded_decimal(n2, w, n2);
    let p1 = padded_decimal(n1, w);
    let p2 = padded_decimal(n2, w);
    assert(p1[0] != 43u8 && p2[0] != 43u8) by {
        assert(is_digit(p1[0]) && is_digit(p2[0]));
    }
    assert(unsigned_literal_digits(p1) == p1);
    assert(unsigned_literal_digits(p2) == p2);
    lemma_digits_order(p1, p2);
}

/// Fields `vals` rendered as zero-padded decimals of `widths`, each after
/// its separator in `seps` (the first field has none).
pub open spec fn render(vals: Seq<nat>, widths: Seq<nat>, seps: Seq<u8>) -> Seq<u8>
    decreases vals.len(),
{
    if vals.len() == 0 {
        Seq::empty()
    } else if vals.len() == 1 {
        padded_decimal(vals[0], widths[0])
    } else {
        render(vals.drop_last(), widths, seps) + seq![seps[vals.len() - 1]] + padded_decimal(
            vals.last(),
            widths[vals.len() - 1],
        )
    }
}

/// The total width of the first `n` fields with their separators.
pub open spec fn render_len(widths: Seq<nat>, n: nat) -> nat
    decreases n,
{
    if n == 0 {
        0
    } else if n == 1 {
        widths[0]
    } else {
        render_len(widths, (n - 1) as nat) + 1 + widths[n - 1]
    }
}

/// Every field of `a` and `b` fits its width.
pub open spec fn fields_fit(a: Seq<nat>, b: Seq<nat>, widths: Seq<nat>) -> bool {
    &&& a.len() == b.len()
    &&& a.len() <= widths.len()
    &&& forall|k: int| #![trigger widths[k]] 0 <= k < widths.len() ==> widths[k] >= 1
    &&& forall|k: int|
        #![trigger a[k]]
        0 <= k < a.len() ==> a[k] < pow10(widths[k]) && b[k] < pow10(widths[k])
}

proof fn lemma_fit_prefix(a: Seq<nat>, b: Seq<nat>, widths: Seq<nat>)
    requires
        fields_fit(a, b, widths),
        a.len() > 0,
    ensures
        fields_fit(a.drop_last(), b.drop_last(), widths),
        fields_fit(a.drop_last(), a.drop_last(), widths),
        fields_fit(b.drop_last(), b.drop_last(), widths),
        widths[a.len() - 1] >= 1,
        a.last() < pow10(widths[a.len() - 1]),
        b.last() < pow10(widths[a.len() - 1]),
{
    let a1 = a.drop_last();
    let b1 = b.drop_last();
    assert forall|k: int| #![trigger a1[k]] 0 <= k < a1.len() implies a1[k] < pow10(
        widths[k],
    ) && b1[k] < pow10(widths[k]) by {
        assert(a1[k] == a[k]);
        assert(b1[k] == b[k]);
    }
    assert forall|k: int| #![trigger b1[k]] 0 <= k < b1.len() implies b1[k] < pow10(
        widths[k],
    ) by {
        assert(b1[k] == b[k]);
        assert(a[k] < pow10(widths[k]));
    }
    assert(a[a.len() - 1] < pow10(widths[a.len() - 1]));
    assert(fields_fit(a1, b1, widths));
}

#[verifier::rlimit(40)]
proof fn lemma_render_order(a: Seq<nat>, b: Seq<nat>, widths: Seq<nat>, seps: Seq<u8>)
    requires
        fields_fit(a, b, widths),
        a.len() <= seps.len(),
        tuple_le(a, b),
    ensures
        render(a, widths, seps).len() == render_len(widths, a.len()),
        render(b, widths, seps).len() == render_len(widths, a.len()),
        a != b ==> lex_lt(render(a, widths, seps), render(b, widths, seps)),
        a == b ==> render(a, widths, seps) == render(b, widths, seps),
    decreases a.len(),
{
    let n = a.len();
    if n == 0 {
    } else {
        let a1 = a.drop_last();
        let b1 = b.drop_last();
        lemma_fit_prefix(a, b, widths);
        lemma_padded_order(a.last(), b.last(), widths[n - 1]);
        lemma_padded_order(b.last(), a.last(), widths[n - 1]);
        let pa = padded_decimal(a.last(), widths[n - 1]);
        let pb = padded_decimal(b.last(), widths[n - 1]);
        if a == b {
        } else {
            let k = choose|k: int| #![trigger a[k], b[k]] 0 <= k < a.len() && k < b.len() && a.take(k) == b.take(k) && a[k] < b[k];
            if n == 1 {
                assert(k == 0);
            } else {
                let last_eq = k < n - 1;
                if k < n - 1 {
                    assert(a1.take(k) =~= a.take(k));
                    assert(b1.take(k) =~= b.take(k));
                    assert(a1[k] == a[k] && b1[k] == b[k]);
                    assert(tuple_le(a1, b1));
                    assert(a1 != b1);
                } else {
                    assert(a1 =~= a.take(k));
                    assert(b1 =~= b.take(k));
                }
                assert(tuple_le(a1, b1));
                lemma_render_order(a1, b1, widths, seps);
                let ra = render(a1, widths, seps);
                let rb = render(b1, widths, seps);
                let sep = seq![seps[n - 1]];
                assert(render(a, widths, seps) == ra + sep + pa);
                assert(render(b, widths, seps) == rb + sep + pb);
                if k < n - 1 {
                    let i = choose|i: int| #![trigger ra[i], rb[i]] 0 <= i < ra.len() && i < rb.len() && ra.take(i) == rb.take(i) && ra[i] < rb[i];
                    assert((ra + sep + pa).take(i) =~= ra.take(i));
                    assert((rb + sep + pb).take(i) =~= rb.take(i));
                    assert((ra + sep + pa)[i] == ra[i]);
                    assert((rb + sep + pb)[i] == rb[i]);
                } else {
                    assert(ra == rb);
                    let j = choose|j: int| #![trigger pa[j], pb[j]] 0 <= j < pa.len() && j < pb.len() && pa.take(j) == pb.take(j) && pa[j] < pb[j];
                    let i = ra.len() + 1 + j;
                    assert((ra + sep + pa).take(i) =~= ra + sep + pa.take(j));
                    assert((rb + sep + pb).take(i) =~= rb + sep + pb.take(j));
                    assert((ra + sep + pa)[i] == pa[j]);
                    assert((rb + sep + pb)[i] == pb[j]);
                }
            }
        }
        if n > 1 {
            lemma_render_order(a1, a1, widths, seps);
            lemma_render_order(b1, b1, widths, seps);
        }
    }
}


proof fn lemma_month_table(y: int)
    ensures
        ({
            let l: int = if is_leap_year(y) {
                1
            } else {
                0
            };
            &&& days_before_month(y, 1) == 0
            &&& days_before_month(y, 2) == 31
            &&& days_before_month(y, 3) == 59 + l
            &&& days_before_month(y, 4) == 90 + l
            &&& days_before_month(y, 5) == 120 + l
            &&& days_before_month(y, 6) == 151 + l
            &&& days_before_month(y, 7) == 181 + l
            &&& days_before_month(y, 8) == 212 + l
            &&& days_before_month(y, 9) == 243 + l
            &&& days_before_month(y, 10) == 273 + l
            &&& days_before_month(y, 11) == 304 + l
            &&& days_before_month(y, 12) == 334 + l
        }),
{
    reveal_with_fuel(days_before_month, 13);
}

proof fn lemma_year_days_mono(y1: int, y2: int)
    requires
        y1 < y2,
    ensures
        days_before_year(y1) + 365 + (if is_leap_year(y1) {
            1int
        } else {
            0int
        }) <= days_before_year(y2),
    decreases y2 - y1,
{
    lemma_leap_years_step(y1);
    if y1 + 1 < y2 {
        lemma_year_days_mono(y1 + 1, y2);
    }
}

/// Valid dates in calendar order are days in that order.
proof fn lemma_date_order(y1: int, m1: int, d1: int, y2: int, m2: int, d2: int)
    requires
        1 <= m1 <= 12,
        1 <= d1 <= days_in_month(y1, m1),
        1 <= m2 <= 12,
        1 <= d2 <= days_in_month(y2, m2),
        y1 < y2 || (y1 == y2 && m1 < m2) || (y1 == y2 && m1 == m2 && d1 < d2),
    ensures
        days_from_civil(y1, m1, d1) < days_from_civil(y2, m2, d2),
{
    lemma_month_table(y1);
    lemma_month_table(y2);
    if y1 < y2 {
        lemma_year_days_mono(y1, y2);
    }
}

/// The numbers that a timestamp text shows: year, month, day, hours,
/// minutes, seconds and milliseconds.
pub open spec fn stamp_fields(secs: i64, millis: u32) -> Seq<nat> {
    let date = civil_from_days(secs / 86400);
    seq![
        date.0 as nat,
        date.1 as nat,
        date.2 as nat,
        (trunc_div(secs as int, 3600) % 24) as nat,
        (trunc_div(secs as int, 60) % 60) as nat,
        (secs % 60) as nat,
        millis as nat,
    ]
}

/// The widths of the fields of a timestamp text.
pub open spec fn stamp_widths() -> Seq<nat> {
    seq![4nat, 2, 2, 2, 2, 2, 3]
}

/// The separators before the fields of a timestamp text.
pub open spec fn stamp_seps() -> Seq<u8> {
    seq![0u8, 45, 45, 32, 58, 58, 44]
}

proof fn lemma_year_range(days: int)
    requires
        0 <= days < 2932897,
    ensures
        1970 <= civil_from_days(days).0 <= 9999,
{
    law_civil_date(days);
    let (y, m, d) = civil_from_days(days);
    assert(leap_years_through(9999) == 2424);
    assert(days_from_civil(10000, 1, 1) == 2932897) by {
        lemma_month_table(10000);
    }
    assert(days_from_civil(1970, 1, 1) == 0) by {
        lemma_month_table(1970);
    }
    if y >= 10000 {
        if !(y == 10000 && m == 1 && d == 1) {
            lemma_date_order(10000, 1, 1, y, m, d);
        }
    }
    if y < 1970 {
        lemma_date_order(y, m, d, 1970, 1, 1);
    }
}

proof fn lemma_date_mono(days1: int, days2: int)
    requires
        days1 < days2,
    ensures
        ({
            let (y1, m1, d1) = civil_from_days(days1);
            let (y2, m2, d2) = civil_from_days(days2);
            y1 < y2 || (y1 == y2 && m1 < m2) || (y1 == y2 && m1 == m2 && d1 < d2)
        }),
{
    law_civil_date(days1);
    law_civil_date(days2);
    let (y1, m1, d1) = civil_from_days(days1);
    let (y2, m2, d2) = civil_from_days(days2);
    if !(y1 < y2 || (y1 == y2 && m1 < m2) || (y1 == y2 && m1 == m2 && d1 < d2)) {
        if !(y1 == y2 && m1 == m2 && d1 == d2) {
            lemma_date_order(y2, m2, d2, y1, m1, d1);
        }
    }
}

proof fn lemma_time_fields(secs: i64)
    requires
        0 <= secs,
    ensures
        ({
            let t = secs % 86400;
            let h = trunc_div(secs as int, 3600) % 24;
            let mi = trunc_div(secs as int, 60) % 60;
            let c = secs % 60;
            &&& 0 <= h < 24
            &&& 0 <= mi < 60
            &&& 0 <= c < 60
            &&& t == 3600 * h + 60 * mi + c
            &&& secs == 86400 * (secs / 86400) + t
        }),
{
    let t = secs % 86400;
    let q = secs / 86400;
    assert(secs == 86400 * q + t && 0 <= t < 86400) by (nonlinear_arith)
        requires
            secs >= 0,
            q == secs / 86400,
            t == secs % 86400,
    ;
    assert(secs / 3600 == 24 * q + t / 3600) by (nonlinear_arith)
        requires
            secs == 86400 * q + t,
            0 <= t < 86400,
            q >= 0,
    ;
    assert(secs / 60 == 1440 * q + t / 60) by (nonlinear_arith)
        requires
            secs == 86400 * q + t,
            0 <= t < 86400,
            q >= 0,
    ;
    assert(secs % 60 == t % 60) by (nonlinear_arith)
        requires
            secs == 86400 * q + t,
            0 <= t < 86400,
            q >= 0,
    ;
}

proof fn lemma_stamp_render(secs: i64, millis: u32)
    requires
        0 <= secs < 253402300800,
        millis < 1000,
    ensures
        timestamp_text(secs, millis) == render(stamp_fields(secs, millis), stamp_widths(), stamp_seps()),
        fields_fit(stamp_fields(secs, millis), stamp_fields(secs, millis), stamp_widths()),
{
    lemma_year_range(secs / 86400);
    law_civil_date(secs / 86400);
    lemma_time_fields(secs);
    let f = stamp_fields(secs, millis);
    assert(pow10(4) == 10000 && pow10(3) == 1000 && pow10(2) == 100) by {
        reveal_with_fuel(pow10, 5);
    }
    assert(fields_fit(f, f, stamp_widths()));
    reveal_with_fuel(render, 8);
    assert(timestamp_text(secs, millis) =~= render(f, stamp_widths(), stamp_seps()));
}

proof fn lemma_stamp_fields_order(s1: i64, ms1: u32, s2: i64, ms2: u32)
    requires
        0 <= s1,
        s1 < s2 || (s1 == s2 && ms1 <= ms2),
        ms1 < 1000,
        ms2 < 1000,
    ensures
        tuple_le(stamp_fields(s1, ms1), stamp_fields(s2, ms2)),
{
    let a = stamp_fields(s1, ms1);
    let b = stamp_fields(s2, ms2);
    lemma_time_fields(s1);
    lemma_time_fields(s2);
    let days1 = s1 / 86400;
    let days2 = s2 / 86400;
    assert(days1 <= days2);
    if days1 < days2 {
        lemma_date_mono(days1 as int, days2 as int);
    }
    if a != b {
        let k: int = if a[0] < b[0] {
            0
        } else if a[1] < b[1] {
            1
        } else if a[2] < b[2] {
            2
        } else if a[3] < b[3] {
            3
        } else if a[4] < b[4] {
            4
        } else if a[5] < b[5] {
            5
        } else {
            6
        };
        assert(a.take(k) =~= b.take(k));
        assert(a[k] < b[k]);
    }
}

/// Log timestamps are ordered as the times they stand for: for times from
/// the epoch to the end of year 9999, a later time (or the same second
/// with more milliseconds) never gives a text that sorts before that of
/// an earlier one, and every text is 23 bytes long.
#[verifier::spinoff_prover]
pub proof fn law_timestamp_order(s1: i64, ms1: u32, s2: i64, ms2: u32)
    requires
        0 <= s1,
        s1 < s2 || (s1 == s2 && ms1 <= ms2),
        s2 < 253402300800,
        ms1 < 1000,
        ms2 < 1000,
    ensures
        timestamp_text(s1, ms1).len() == 23,
        timestamp_text(s2, ms2).len() == 23,
        text_le(timestamp_text(s1, ms1), timestamp_text(s2, ms2)),
{
    lemma_stamp_render(s1, ms1);
    lemma_stamp_render(s2, ms2);
    lemma_stamp_fields_order(s1, ms1, s2, ms2);
    let a = stamp_fields(s1, ms1);
    let b = stamp_fields(s2, ms2);
    assert(fields_fit(a, b, stamp_widths()));
    lemma_render_order(a, b, stamp_widths(), stamp_seps());
    assert(render_len(stamp_widths(), 7) == 23) by {
        reveal_with_fuel(render_len, 8);
    }
    assert(a.len() == 7);
}

} // verus!
