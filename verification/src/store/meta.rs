//! A run's directory and the small files in it.
use crate::base::text;
use crate::base::types::FinishReason;
use crate::base::value;
use crate::base::value::Real;
use vstd::prelude::*;
use vstd::string::*;

verus! {

/// File with the run's metadata.
pub const RUN_META_FILE: &'static str = "run.meta";

/// File with the run's configuration.
pub const CONFIG_FILE: &'static str = "config.json";

/// File with the summary of a finished run.
pub const SUMMARY_FILE: &'static str = "summary.json";

/// What is written when a run starts.
#[derive(Debug, PartialEq)]
pub struct RunMetaFile {
    /// The run's identifier.
    pub run_id: u128,
    /// Project or experiment name.
    pub project: String,
    /// Unix time at the start, in seconds.
    pub start_time_secs: Real,
    /// Where the engine ran.
    pub mode: String,
}

/// What is written when a run finishes.
#[derive(Debug, PartialEq)]
pub struct Summary {
    /// The run's identifier.
    pub run_id: u128,
    /// Project or experiment name.
    pub project: String,
    /// Duration in seconds.
    pub duration_secs: Real,
    /// Why the run ended.
    pub reason: FinishReason,
    /// Steps recorded.
    pub steps: u64,
    /// Events dropped.
    pub dropped: u64,
}

/// Whether a year of the Gregorian calendar has a leap day.
pub open spec fn is_leap(y: int) -> bool {
    y % 4 == 0 && (y % 100 != 0 || y % 400 == 0)
}

/// The days of a month.
pub open spec fn month_days(y: int, m: int) -> int {
    if m == 2 {
        if is_leap(y) {
            29
        } else {
            28
        }
    } else if m == 4 || m == 6 || m == 9 || m == 11 {
        30
    } else {
        31
    }
}

/// The days of a year before month `m`.
pub open spec fn days_before_month(y: int, m: int) -> int
    decreases m,
{
    if m <= 1 {
        0
    } else {
        days_before_month(y, m - 1) + month_days(y, m - 1)
    }
}

/// The days from the beginning of the year 1 to that of year `y`.
pub open spec fn days_before_year(y: int) -> int {
    365 * (y - 1) + (y - 1) / 4 - (y - 1) / 100 + (y - 1) / 400
}

/// The day number of a date, with 0 for the first of January 1970.
pub open spec fn day_number(y: int, m: int, d: int) -> int {
    days_before_year(y) + days_before_month(y, m) + (d - 1) - 719_162
}

/// Whether `(y, m, d)` is a date of the calendar.
pub open spec fn is_date(y: int, m: int, d: int) -> bool {
    1 <= m <= 12 && 1 <= d <= month_days(y, m)
}

/// Years follow one another: after the last day of a year comes the first of
/// the next.
pub proof fn years_follow(y: int)
    ensures
        days_before_year(y + 1) == days_before_year(y) + 365 + (if is_leap(y) {
            1int
        } else {
            0
        }),
        days_before_year(y) + days_before_month(y, 13) == days_before_year(y + 1),
{
    reveal_with_fuel(days_before_month, 14);
    let a = y / 4;
    let b = y / 100;
    let c = y / 400;
    assert((y - 1) / 4 == (if y % 4 == 0 { a - 1 } else { a }));
    assert((y - 1) / 100 == (if y % 100 == 0 { b - 1 } else { b }));
    assert((y - 1) / 400 == (if y % 400 == 0 { c - 1 } else { c }));
    assert(y % 400 == 0 ==> y % 100 == 0);
    assert(y % 100 == 0 ==> y % 4 == 0);
}

/// The days of months in a year that begins with March, before month `k`.
proof fn lemma_march_months(y: int)
    ensures
        days_before_month(y, 3) == 59 + (if is_leap(y) { 1int } else { 0 }),
        days_before_month(y, 4) == days_before_month(y, 3) + 31,
        days_before_month(y, 5) == days_before_month(y, 3) + 61,
        days_before_month(y, 6) == days_before_month(y, 3) + 92,
        days_before_month(y, 7) == days_before_month(y, 3) + 122,
        days_before_month(y, 8) == days_before_month(y, 3) + 153,
        days_before_month(y, 9) == days_before_month(y, 3) + 184,
        days_before_month(y, 10) == days_before_month(y, 3) + 214,
        days_before_month(y, 11) == days_before_month(y, 3) + 245,
        days_before_month(y, 12) == days_before_month(y, 3) + 275,
        days_before_month(y, 1) == 0,
        days_before_month(y, 2) == 31,
{
    reveal_with_fuel(days_before_month, 13);
}

/// The date of a day, counted from the first of March of the year 0: `era` is a
/// span of 400 years, `yoe` a year in it, `doy` a day of a year that begins with
/// March.
proof fn lemma_march_year(era: int, c: int, q: int, y: int, doy: int)
    requires
        0 <= c <= 3,
        0 <= q <= 24,
        0 <= y <= 3,
        0 <= doy <= 365,
        doy == 365 ==> y == 3,
        doy == 365 && q == 24 ==> c == 3,
    ensures
        ({
            let year = 400 * era + 100 * c + 4 * q + y;
            &&& days_before_year(year) + days_before_month(year, 3) - 719_162 == 146_097 * era
                + 36_524 * c + 1461 * q + 365 * y - 719_468
            &&& doy == 365 ==> is_leap(year + 1)
        }),
{
    let year = 400 * era + 100 * c + 4 * q + y;
    lemma_march_months(year);
    years_follow(year);
    assert(year / 4 == 100 * era + 25 * c + q);
    assert(year / 100 == 4 * era + c);
    assert(year / 400 == era);
    assert(days_before_year(year + 1) == 365 * year + year / 4 - year / 100 + year / 400);
    if doy == 365 {
        let next = year + 1;
        assert(next % 4 == 0);
        if q == 24 {
            assert(next % 400 == 0);
        } else {
            assert(next % 100 != 0);
        }
    }
}

/// The days before month `mp` of a year that begins with March, counting March
/// as 0.
spec fn march_offset(mp: int) -> int {
    if mp <= 0 {
        0
    } else if mp == 1 {
        31
    } else if mp == 2 {
        61
    } else if mp == 3 {
        92
    } else if mp == 4 {
        122
    } else if mp == 5 {
        153
    } else if mp == 6 {
        184
    } else if mp == 7 {
        214
    } else if mp == 8 {
        245
    } else if mp == 9 {
        275
    } else if mp == 10 {
        306
    } else {
        337
    }
}

/// The month, counting March as 0, and the day in it of day `doy`.
fn march_date(doy: i64) -> (r: (i64, i64))
    requires
        0 <= doy <= 365,
    ensures
        0 <= r.0 <= 11,
        r.1 == doy - march_offset(r.0 as int) + 1,
        1 <= r.1,
        r.0 < 11 ==> doy < march_offset(r.0 + 1),
{
    let mp: i64 = (5 * doy + 2) / 153;
    let day: i64 = doy - (153 * mp + 2) / 5 + 1;
    assert(mp == 0 || mp == 1 || mp == 2 || mp == 3 || mp == 4 || mp == 5 || mp == 6 || mp == 7
        || mp == 8 || mp == 9 || mp == 10 || mp == 11);
    (mp, day)
}

/// A day of a 400-year era as century, group of four years, year and day.
fn split_era(doe: i64) -> (r: (i64, i64, i64, i64))
    requires
        0 <= doe < 146_097,
    ensures
        0 <= r.0 <= 3,
        0 <= r.1 <= 24,
        0 <= r.2 <= 3,
        0 <= r.3 <= 365,
        r.3 == 365 ==> r.2 == 3,
        r.3 == 365 && r.1 == 24 ==> r.0 == 3,
        doe == 36_524 * r.0 + 1461 * r.1 + 365 * r.2 + r.3,
{
    let mut c: i64 = doe / 36_524;
    if c > 3 {
        c = 3;
    }
    let rest: i64 = doe - c * 36_524;
    let q: i64 = rest / 1461;
    let rest4: i64 = rest - q * 1461;
    let mut y: i64 = rest4 / 365;
    if y > 3 {
        y = 3;
    }
    (c, q, y, rest4 - y * 365)
}

/// Day `doy` of the year that begins with March of `year` is a date.
proof fn lemma_march_date(year: int, doy: int, mp: int, day: int)
    requires
        0 <= doy <= 365,
        doy == 365 ==> is_leap(year + 1),
        0 <= mp <= 11,
        day == doy - march_offset(mp) + 1,
        1 <= day,
        mp < 11 ==> doy < march_offset(mp + 1),
    ensures
        mp < 10 ==> is_date(year, mp + 3, day) && day_number(year, mp + 3, day) == day_number(
            year,
            3,
            1,
        ) + doy,
        mp >= 10 ==> is_date(year + 1, mp - 9, day) && day_number(year + 1, mp - 9, day)
            == day_number(year, 3, 1) + doy,
{
    lemma_march_months(year);
    lemma_march_months(year + 1);
    years_follow(year);
}

/// The date of a day number.
pub fn civil_date(days: i64) -> (r: (i64, i64, i64))
    requires
        -200_000_000_000_000 <= days <= 200_000_000_000_000,
    ensures
        is_date(r.0 as int, r.1 as int, r.2 as int),
        day_number(r.0 as int, r.1 as int, r.2 as int) == days,
        -1_000_000_000_000 <= r.0 <= 1_000_000_000_000,
{
    let z: i64 = days + 719_468;
    let era: i64 = if z >= 0 {
        z / 146_097
    } else {
        -1 - (-1 - z) / 146_097
    };
    let doe: i64 = z - era * 146_097;
    let (c, q, y, doy) = split_era(doe);
    let year: i64 = 400 * era + 100 * c + 4 * q + y;
    let (mp, day) = march_date(doy);
    proof {
        lemma_march_year(era as int, c as int, q as int, y as int, doy as int);
        lemma_march_date(year as int, doy as int, mp as int, day as int);
    }
    if mp < 10 {
        (year, mp + 3, day)
    } else {
        (year + 1, mp - 9, day)
    }
}

/// `YYYYMMDD_HHMMSS` for a date and a second of its day.
pub open spec fn stamp_of(y: int, m: int, d: int, second: int) -> Seq<char> {
    text::signed_padded(y, 4) + text::zero_padded(m as nat, 2) + text::zero_padded(d as nat, 2)
        + "_"@ + text::zero_padded((second / 3600) as nat, 2) + text::zero_padded(
        (second % 3600 / 60) as nat,
        2,
    ) + text::zero_padded((second % 60) as nat, 2)
}

/// Whether `stamp` is `YYYYMMDD_HHMMSS` for a second since 1970, in UTC.
pub open spec fn is_utc_stamp(secs: int, stamp: Seq<char>) -> bool {
    exists|y: int, m: int, d: int| #[trigger]
        is_date(y, m, d) && day_number(y, m, d) == secs / 86_400 && stamp == stamp_of(
            y,
            m,
            d,
            secs % 86_400,
        )
}

fn stamp_text(y: i64, m: i64, d: i64, second: i64) -> (r: String)
    requires
        1 <= m <= 12,
        1 <= d <= 31,
        0 <= second < 86_400,
    ensures
        r@ == stamp_of(y as int, m as int, d as int, second as int),
{
    let mut out: String = text::signed_padded_text(y, 4);
    out.append(text::padded_text(m as u64, 2).as_str());
    out.append(text::padded_text(d as u64, 2).as_str());
    out.append("_");
    out.append(text::padded_text((second / 3600) as u64, 2).as_str());
    out.append(text::padded_text((second % 3600 / 60) as u64, 2).as_str());
    out.append(text::padded_text((second % 60) as u64, 2).as_str());
    out
}

/// Formats a Unix time as `YYYYMMDD_HHMMSS` in UTC. Fractions of a second are
/// cut off.
pub fn format_utc_timestamp(secs: Real) -> (r: String)
    ensures
        is_utc_stamp(value::truncated(secs), r@),
{
    let s: i64 = secs.to_i64();
    let days: i64 = if s >= 0 {
        s / 86_400
    } else {
        -1 - (-1 - s) / 86_400
    };
    let tod: i64 = (s as i128 - days as i128 * 86_400) as i64;
    assert(days == s as int / 86_400 && tod == s as int % 86_400);
    let (y, m, d) = civil_date(days);
    let out = stamp_text(y, m, d, tod);
    assert(is_date(y as int, m as int, d as int));
    out
}

/// The name of a run's directory: `{project}_{YYYYMMDD_HHMMSS}`.
pub fn run_dir_name(project: &str, start_time_secs: Real) -> (r: String)
    ensures
        exists|stamp: Seq<char>| #[trigger]
            is_utc_stamp(value::truncated(start_time_secs), stamp) && r@ == project@ + "_"@ + stamp,
{
    let mut out: String = text::joined(project, "_");
    let stamp = format_utc_timestamp(start_time_secs);
    out.append(stamp.as_str());
    assert(is_utc_stamp(value::truncated(start_time_secs), stamp@));
    out
}

proof fn lemma_year_of(y: int, m: int, d: int)
    requires
        is_date(y, m, d),
    ensures
        days_before_year(y) <= day_number(y, m, d) + 719_162 < days_before_year(y + 1),
{
    years_follow(y);
    reveal_with_fuel(days_before_month, 14);
}

proof fn lemma_years_grow(a: int, b: int)
    requires
        a <= b,
    ensures
        days_before_year(a) <= days_before_year(b),
    decreases b - a,
{
    if a < b {
        lemma_years_grow(a, b - 1);
        years_follow(b - 1);
    }
}

/// A day number belongs to one date only, so a time has one stamp.
pub proof fn dates_are_unique(y: int, m: int, d: int, y2: int, m2: int, d2: int)
    requires
        is_date(y, m, d),
        is_date(y2, m2, d2),
        day_number(y, m, d) == day_number(y2, m2, d2),
    ensures
        y == y2 && m == m2 && d == d2,
{
    lemma_year_of(y, m, d);
    lemma_year_of(y2, m2, d2);
    if y < y2 {
        lemma_years_grow(y + 1, y2);
    } else if y2 < y {
        lemma_years_grow(y2 + 1, y);
    }
    reveal_with_fuel(days_before_month, 13);
}

/// Day numbers follow the calendar: the first of January 1970 is day 0, each day of a
/// month is one more than the day before, and the first of a month or a year follows the
/// last day of the one before.
#[verifier::spinoff_prover]
pub proof fn days_follow_the_calendar(y: int, m: int, d: int)
    ensures
        day_number(1970, 1, 1) == 0,
        day_number(y, m, d + 1) == day_number(y, m, d) + 1,
        1 <= m < 12 ==> day_number(y, m + 1, 1) == day_number(y, m, month_days(y, m)) + 1,
        day_number(y + 1, 1, 1) == day_number(y, 12, 31) + 1,
        month_days(y, 2) == 29 <==> is_leap(y),
        is_leap(2000) && is_leap(2024) && !is_leap(1900) && !is_leap(2023),
{
    years_follow(y);
    reveal_with_fuel(days_before_month, 14);
}

proof fn lemma_short_numerals(n: nat)
    ensures
        n < 100 ==> text::zero_padded(n, 2).len() == 2,
        n < 10_000 ==> text::zero_padded(n, 4).len() == 4,
{
    reveal_with_fuel(text::decimal, 5);
    text::padded_numerals_read_back(n, 2);
    text::padded_numerals_read_back(n, 4);
}

/// A stamp of a year with four digits reads back: it holds the year, month and day, an
/// underscore, and then hours, minutes and seconds, in that order and two digits each but
/// for the year.
#[verifier::spinoff_prover]
pub proof fn stamps_read_back(y: int, m: int, d: int, second: int)
    requires
        0 <= y < 10_000,
        is_date(y, m, d),
        0 <= second < 86_400,
    ensures
        ({
            let s = stamp_of(y, m, d, second);
            let hours = text::numeral_value(s.subrange(9, 11));
            let minutes = text::numeral_value(s.subrange(11, 13));
            let seconds = text::numeral_value(s.subrange(13, 15));
            &&& s.len() == 15
            &&& text::numeral_value(s.subrange(0, 4)) == y
            &&& text::numeral_value(s.subrange(4, 6)) == m
            &&& text::numeral_value(s.subrange(6, 8)) == d
            &&& s[8] == '_'
            &&& 0 <= hours < 24 && 0 <= minutes < 60 && 0 <= seconds < 60
            &&& 3600 * hours + 60 * minutes + seconds == second
        }),
{
    reveal_strlit("_");
    let s = stamp_of(y, m, d, second);
    let h = (second / 3600) as nat;
    let mi = (second % 3600 / 60) as nat;
    let se = (second % 60) as nat;
    lemma_short_numerals(y as nat);
    lemma_short_numerals(m as nat);
    lemma_short_numerals(d as nat);
    lemma_short_numerals(h);
    lemma_short_numerals(mi);
    lemma_short_numerals(se);
    text::padded_numerals_read_back(y as nat, 4);
    text::padded_numerals_read_back(m as nat, 2);
    text::padded_numerals_read_back(d as nat, 2);
    text::padded_numerals_read_back(h, 2);
    text::padded_numerals_read_back(mi, 2);
    text::padded_numerals_read_back(se, 2);
    assert("_"@.len() == 1);
    assert(s.subrange(0, 4) =~= text::zero_padded(y as nat, 4));
    assert(s.subrange(4, 6) =~= text::zero_padded(m as nat, 2));
    assert(s.subrange(6, 8) =~= text::zero_padded(d as nat, 2));
    assert(s.subrange(9, 11) =~= text::zero_padded(h, 2));
    assert(s.subrange(11, 13) =~= text::zero_padded(mi, 2));
    assert(s.subrange(13, 15) =~= text::zero_padded(se, 2));
}

/// A second has one stamp, and its date is the one that the day of that second has.
pub proof fn seconds_have_one_stamp(secs: int, a: Seq<char>, b: Seq<char>, y: int, m: int, d: int)
    requires
        is_utc_stamp(secs, a),
        is_date(y, m, d),
        day_number(y, m, d) == secs / 86_400,
    ensures
        a == stamp_of(y, m, d, secs % 86_400),
        is_utc_stamp(secs, b) ==> a == b,
{
    let (ya, ma, da) = choose|ya: int, ma: int, da: int| #[trigger]
        is_date(ya, ma, da) && day_number(ya, ma, da) == secs / 86_400 && a == stamp_of(
            ya,
            ma,
            da,
            secs % 86_400,
        );
    dates_are_unique(ya, ma, da, y, m, d);
    if is_utc_stamp(secs, b) {
        let (yb, mb, db) = choose|yb: int, mb: int, db: int| #[trigger]
            is_date(yb, mb, db) && day_number(yb, mb, db) == secs / 86_400 && b == stamp_of(
                yb,
                mb,
                db,
                secs % 86_400,
            );
        dates_are_unique(yb, mb, db, y, m, d);
    }
}

} // verus!
