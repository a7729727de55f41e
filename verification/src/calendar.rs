use crate::duration::Duration;
use crate::render::{dec_str, u64_to_dec, u64_to_two_digits, zero_pad2};
use vstd::prelude::*;

verus! {

/// The Gregorian leap-year rule.
pub open spec fn is_leap_year(y: int) -> bool {
    y % 4 == 0 && (y % 100 != 0 || y % 400 == 0)
}

pub open spec fn days_in_year(y: int) -> int {
    if is_leap_year(y) {
        366
    } else {
        365
    }
}

pub open spec fn days_in_month(y: int, m: int) -> int {
    if m == 2 {
        if is_leap_year(y) {
            29
        } else {
            28
        }
    } else if m == 4 || m == 6 || m == 9 || m == 11 {
        30
    } else {
        31
    }
}

/// Days from the Unix epoch to the first day of the given year.
pub open spec fn days_before_year(y: int) -> int
    decreases y - 1970,
{
    if y <= 1970 {
        0
    } else {
        days_before_year(y - 1) + days_in_year(y - 1)
    }
}

/// Days from the first of the year to the first of the given month.
pub open spec fn days_before_month(y: int, m: int) -> int
    decreases m,
{
    if m <= 1 {
        0
    } else {
        days_before_month(y, m - 1) + days_in_month(y, m - 1)
    }
}

/// The epoch day number of a calendar date.
pub open spec fn days_from_civil(y: int, m: int, d: int) -> int {
    days_before_year(y) + days_before_month(y, m) + d - 1
}

pub open spec fn valid_date(y: int, m: int, d: int) -> bool {
    &&& 1970 <= y < 10000
    &&& 1 <= m <= 12
    &&& 1 <= d <= days_in_month(y, m)
}

/// Walking years forward from an epoch-day remainder.
pub open spec fn year_step(y: int, rem: int) -> (int, int)
    decreases 9999 - y,
{
    if 1970 <= y < 9999 && rem >= days_in_year(y) {
        year_step(y + 1, rem - days_in_year(y))
    } else {
        (y, rem)
    }
}

/// Walking months forward within one year.
pub open spec fn month_step(y: int, m: int, rem: int) -> (int, int)
    decreases 12 - m,
{
    if 1 <= m < 12 && rem >= days_in_month(y, m) {
        month_step(y, m + 1, rem - days_in_month(y, m))
    } else {
        (m, rem)
    }
}

/// The calendar date of an epoch day number.
pub open spec fn civil_of_days(days: int) -> (int, int, int) {
    let yr = year_step(1970, days);
    let mr = month_step(yr.0, 1, yr.1);
    (yr.0, mr.0, mr.1 + 1)
}

/// The months of a year add up to the year.
proof fn lemma_days_before_month_full(y: int)
    ensures
        days_before_month(y, 13) == days_in_year(y),
{
    assert(days_before_month(y, 2) == days_before_month(y, 1) + days_in_month(y, 1));
    assert(days_before_month(y, 3) == days_before_month(y, 2) + days_in_month(y, 2));
    assert(days_before_month(y, 4) == days_before_month(y, 3) + days_in_month(y, 3));
    assert(days_before_month(y, 5) == days_before_month(y, 4) + days_in_month(y, 4));
    assert(days_before_month(y, 6) == days_before_month(y, 5) + days_in_month(y, 5));
    assert(days_before_month(y, 7) == days_before_month(y, 6) + days_in_month(y, 6));
    assert(days_before_month(y, 8) == days_before_month(y, 7) + days_in_month(y, 7));
    assert(days_before_month(y, 9) == days_before_month(y, 8) + days_in_month(y, 8));
    assert(days_before_month(y, 10) == days_before_month(y, 9) + days_in_month(y, 9));
    assert(days_before_month(y, 11) == days_before_month(y, 10) + days_in_month(y, 10));
    assert(days_before_month(y, 12) == days_before_month(y, 11) + days_in_month(y, 11));
    assert(days_before_month(y, 13) == days_before_month(y, 12) + days_in_month(y, 12));
}

fn is_leap_exec(y: u64) -> (b: bool)
    ensures
        b == is_leap_year(y as int),
{
    y % 4 == 0 && (y % 100 != 0 || y % 400 == 0)
}

fn days_in_year_exec(y: u64) -> (r: u64)
    ensures
        r == days_in_year(y as int),
{
    if is_leap_exec(y) {
        366
    } else {
        365
    }
}

fn days_in_month_exec(y: u64, m: u64) -> (r: u64)
    requires
        1 <= m <= 12,
    ensures
        r == days_in_month(y as int, m as int),
{
    if m == 2 {
        if is_leap_exec(y) {
            29
        } else {
            28
        }
    } else if m == 4 || m == 6 || m == 9 || m == 11 {
        30
    } else {
        31
    }
}

/// One past the largest epoch day number the formatter supports: the first
/// day of the year ten thousand.
pub fn epoch_day_limit() -> (r: u64)
    ensures
        r == days_before_year(10000),
{
    let mut y: u64 = 1970;
    let mut total: u64 = 0;
    while y < 10000
        invariant
            1970 <= y <= 10000,
            total == days_before_year(y as int),
            total <= 366 * (y - 1970),
        decreases 10000 - y,
    {
        let dy = days_in_year_exec(y);
        total += dy;
        y += 1;
    }
    total
}

/// The calendar date of an epoch day number, by walking years and then
/// months; exact over the whole supported range.
#[verifier::loop_isolation(false)]
pub fn civil_from_days(days: u64) -> (r: (u64, u64, u64))
    requires
        days < days_before_year(10000),
    ensures
        ({
            let ymd = civil_of_days(days as int);
            &&& r.0 == ymd.0
            &&& r.1 == ymd.1
            &&& r.2 == ymd.2
            &&& valid_date(r.0 as int, r.1 as int, r.2 as int)
            &&& days_from_civil(r.0 as int, r.1 as int, r.2 as int) == days
        }),
{
    let mut y: u64 = 1970;
    let mut rem: u64 = days;
    loop
        invariant
            1970 <= y <= 9999,
            rem as int == days - days_before_year(y as int),
            year_step(1970, days as int) == year_step(y as int, rem as int),
        decreases 9999 - y,
    {
        let dy = days_in_year_exec(y);
        if rem < dy {
            break ;
        }
        proof {
            if y == 9999 {
                assert(days_before_year(10000) == days_before_year(9999) + days_in_year(9999));
                assert(false);
            }
        }
        rem -= dy;
        y += 1;
    }
    proof {
        assert(year_step(y as int, rem as int) == (y as int, rem as int));
        assert(year_step(1970, days as int) == (y as int, rem as int));
        // the remainder fits inside the year
        assert(rem < days_in_year(y as int));
    }
    let ghost rem0 = rem as int;
    let mut m: u64 = 1;
    while rem >= days_in_month_exec(y, m)
        invariant
            1 <= m <= 12,
            rem as int == rem0 - days_before_month(y as int, m as int),
            month_step(y as int, 1, rem0) == month_step(y as int, m as int, rem as int),
        decreases 12 - m,
    {
        let dm = days_in_month_exec(y, m);
        proof {
            if m == 12 {
                lemma_days_before_month_full(y as int);
                assert(days_before_month(y as int, 13) == days_before_month(y as int, 12)
                    + days_in_month(y as int, 12));
                assert(false);
            }
        }
        rem -= dm;
        m += 1;
    }
    proof {
        assert(month_step(y as int, m as int, rem as int) == (m as int, rem as int));
    }
    let d = rem + 1;
    (y, m, d)
}

/// The `HH:MM:SS` rendering of a second of the day.
pub open spec fn hms_str(sod: int) -> Seq<char> {
    zero_pad2((sod / 3600) as nat) + seq![':'] + zero_pad2(((sod % 3600) / 60) as nat) + seq![':']
        + zero_pad2(((sod % 3600) % 60) as nat)
}

/// The `YYYY-MM-DD ` rendering of a date, trailing space included.
pub open spec fn date_str(y: nat, m: nat, d: nat) -> Seq<char> {
    dec_str(y) + seq!['-'] + zero_pad2(m) + seq!['-'] + zero_pad2(d) + seq![' ']
}

/// The absolute-end display: the end's time of day, with its calendar date
/// in front exactly when the end falls on another day than the start.
pub open spec fn end_display_spec(begin_local: int, end_local: int) -> Seq<char> {
    let hms = hms_str(end_local % 86400);
    if begin_local / 86400 == end_local / 86400 {
        hms
    } else {
        let ymd = civil_of_days(end_local / 86400);
        date_str(ymd.0 as nat, ymd.1 as nat, ymd.2 as nat) + hms
    }
}

/// What the absolute-end formatter returns for a clock reading and a
/// duration: seconds and offset are added, the end saturates at the last
/// supported instant, sub-second parts carry into one extra second, and a
/// clock outside the supported range gives nothing.
pub open spec fn wall_clock_spec(
    now_secs: int,
    now_nanos: int,
    off_secs: int,
    dur: Duration,
) -> Option<Seq<char>> {
    if dur.secs > i64::MAX {
        None
    } else {
        let begin = now_secs + off_secs;
        let carry: int = if now_nanos + dur.nanos >= 1_000_000_000 {
            1
        } else {
            0
        };
        let max_civil = days_before_year(10000) * 86400 - 1;
        let end_raw = begin + dur.secs + carry;
        let end = if end_raw > max_civil {
            max_civil
        } else {
            end_raw
        };
        if 0 <= begin && begin <= max_civil {
            Some(end_display_spec(begin, end))
        } else {
            None
        }
    }
}

/// The absolute-end display carries a calendar-date prefix exactly when the
/// end falls on another local day than the start; the time of day itself is
/// always the eight columns `HH:MM:SS`.
pub proof fn lemma_end_display_date_prefix(begin_local: int, end_local: int)
    requires
        0 <= begin_local,
        0 <= end_local,
    ensures
        hms_str(end_local % 86400).len() == 8,
        begin_local / 86400 == end_local / 86400 ==> end_display_spec(begin_local, end_local)
            == hms_str(end_local % 86400),
        begin_local / 86400 != end_local / 86400 ==> ({
            let ymd = civil_of_days(end_local / 86400);
            end_display_spec(begin_local, end_local) == date_str(
                ymd.0 as nat,
                ymd.1 as nat,
                ymd.2 as nat,
            ) + hms_str(end_local % 86400)
        }),
{
    let sod = end_local % 86400;
    vstd::arithmetic::div_mod::lemma_mod_division_less_than_divisor(end_local, 86400);
    assert(0 <= sod < 86400);
    lemma_two_digit_fields(sod);
}

/// Each field of a second of the day renders as two columns.
proof fn lemma_two_digit_fields(sod: int)
    requires
        0 <= sod < 86400,
    ensures
        hms_str(sod).len() == 8,
{
    let h = sod / 3600;
    let rm = sod % 3600;
    vstd::arithmetic::div_mod::lemma_mod_division_less_than_divisor(sod, 3600);
    assert(0 <= h < 24) by {
        vstd::arithmetic::div_mod::lemma_div_pos_is_pos(sod, 3600);
        vstd::arithmetic::div_mod::lemma_div_is_ordered(sod, 86399, 3600);
    };
    let m = rm / 60;
    let s = rm % 60;
    vstd::arithmetic::div_mod::lemma_mod_division_less_than_divisor(rm, 60);
    assert(0 <= m < 60) by {
        vstd::arithmetic::div_mod::lemma_div_pos_is_pos(rm, 60);
        vstd::arithmetic::div_mod::lemma_div_is_ordered(rm, 3599, 60);
    };
    lemma_zero_pad2_len(h as nat);
    lemma_zero_pad2_len(m as nat);
    lemma_zero_pad2_len(s as nat);
}

/// Numbers below one hundred always fill exactly two columns.
proof fn lemma_zero_pad2_len(n: nat)
    requires
        n < 100,
    ensures
        zero_pad2(n).len() == 2,
{
    crate::render::lemma_dec_str_len(n);
}

fn hms_string(sod: u64) -> (r: String)
    requires
        sod < 86400,
    ensures
        r@ == hms_str(sod as int),
{
    let h = sod / 3600;
    let rm = sod % 3600;
    let m = rm / 60;
    let s = rm % 60;
    proof {
        reveal_strlit(":");
        assert(":"@ =~= seq![':']);
    }
    let mut out = u64_to_two_digits(h);
    out.append(":");
    out.append(u64_to_two_digits(m).as_str());
    out.append(":");
    out.append(u64_to_two_digits(s).as_str());
    out
}

/// The absolute-end display computed from a clock reading handed in as
/// plain values, so every path through it is checked whatever the clock
/// returned.
pub fn format_end_from_clock(now_secs: i64, now_nanos: u32, off_secs: i32, dur: &Duration) -> (r:
    Option<String>)
    requires
        now_nanos < 1_000_000_000,
        -93599 <= off_secs <= 93599,
        dur.wf(),
    ensures
        ({
            let spec_r = wall_clock_spec(now_secs as int, now_nanos as int, off_secs as int, *dur);
            match r {
                Some(s) => spec_r == Some(s@),
                None => spec_r is None,
            }
        }),
{
    if dur.secs > i64::MAX as u64 {
        return None;
    }
    let limit_days: u64 = epoch_day_limit();
    proof {
        // the limit is small enough for all the casts below
        assert(days_before_year(10000) <= 366 * (10000 - 1970)) by {
            lemma_days_before_year_bound(10000);
        };
    }
    let max_civil: i128 = (limit_days as i128) * 86400 - 1;
    let begin: i128 = now_secs as i128 + off_secs as i128;
    if begin < 0 || begin > max_civil {
        return None;
    }
    let carry: i128 = if now_nanos as u64 + dur.nanos as u64 >= 1_000_000_000 {
        1
    } else {
        0
    };
    let mut end: i128 = begin + dur.secs as i128 + carry;
    if end > max_civil {
        end = max_civil;
    }
    let begin_u: u64 = begin as u64;
    let end_u: u64 = end as u64;
    let begin_day: u64 = begin_u / 86400;
    let end_day: u64 = end_u / 86400;
    let sod: u64 = end_u % 86400;
    let hms = hms_string(sod);
    if begin_day == end_day {
        Some(hms)
    } else {
        proof {
            // a day within the last supported second lies before the limit
            assert(end_day < limit_days) by {
                assert(end_u <= limit_days * 86400 - 1);
                vstd::arithmetic::div_mod::lemma_div_is_ordered(
                    end_u as int,
                    limit_days * 86400 - 1,
                    86400,
                );
                vstd::arithmetic::div_mod::lemma_fundamental_div_mod_converse(
                    limit_days * 86400 - 1,
                    86400,
                    limit_days as int - 1,
                    86399,
                );
            };
        }
        let ymd = civil_from_days(end_day);
        proof {
            reveal_strlit("-");
            assert("-"@ =~= seq!['-']);
            reveal_strlit(" ");
            assert(" "@ =~= seq![' ']);
        }
        let mut out = u64_to_dec(ymd.0);
        out.append("-");
        out.append(u64_to_two_digits(ymd.1).as_str());
        out.append("-");
        out.append(u64_to_two_digits(ymd.2).as_str());
        out.append(" ");
        out.append(hms.as_str());
        Some(out)
    }
}

/// The day count to any supported year is at most a leap year per year.
proof fn lemma_days_before_year_bound(y: int)
    requires
        y >= 1970,
    ensures
        0 <= days_before_year(y) <= 366 * (y - 1970),
    decreases y - 1970,
{
    if y > 1970 {
        lemma_days_before_year_bound(y - 1);
    }
}

/// Relies on `time::OffsetDateTime::now_local`: the current instant with
/// the local UTC offset attached, or `Err` when that offset cannot be
/// determined. `unix_timestamp`, `nanosecond` (documented to stay below
/// 1_000_000_000) and `offset().whole_seconds()` (a `time::UtcOffset`
/// holds at most ±25:59:59, so ±93599 seconds) take the instant apart
/// into plain values.
#[verifier::external_body]
fn now_local_parts() -> (r: Option<(i64, u32, i32)>)
    ensures
        match r {
            Some(p) => p.1 < 1_000_000_000 && -93599 <= p.2 <= 93599,
            None => true,
        },
{
    match time::OffsetDateTime::now_local() {
        Ok(t) => Some((t.unix_timestamp(), t.nanosecond(), t.offset().whole_seconds())),
        Err(_) => None,
    }
}

/// Relies on `time::OffsetDateTime::now_utc`: the current instant in UTC,
/// taken apart as above; its offset is zero by construction.
#[verifier::external_body]
fn now_utc_parts() -> (r: (i64, u32))
    ensures
        r.1 < 1_000_000_000,
{
    let t = time::OffsetDateTime::now_utc();
    (t.unix_timestamp(), t.nanosecond())
}

/// The wall-clock instant at which a countdown started now would end,
/// rendered for display; the date appears exactly when the end falls on
/// another local day. `None` when the clock is outside the supported
/// range — the display is decoration, never an error.
///
/// Local time is used when the local offset can be determined, UTC
/// otherwise.
pub fn wall_clock_end_time(input: Duration) -> (r: Option<String>)
    requires
        input.wf(),
    ensures
        exists|ns: int, nn: int, off: int|
            {
                &&& #[trigger] wall_clock_spec(ns, nn, off, input) == if r is Some {
                    Some(r->Some_0@)
                } else {
                    None::<Seq<char>>
                }
                &&& 0 <= nn < 1_000_000_000
                &&& -93599 <= off <= 93599
            },
{
    let parts: (i64, u32, i32) = match now_local_parts() {
        Some(p) => p,
        None => {
            let q = now_utc_parts();
            (q.0, q.1, 0i32)
        },
    };
    let r = format_end_from_clock(parts.0, parts.1, parts.2, &input);
    proof {
        let ns = parts.0 as int;
        let nn = parts.1 as int;
        let off = parts.2 as int;
        assert(wall_clock_spec(ns, nn, off, input) == if r is Some {
            Some(r->Some_0@)
        } else {
            None::<Seq<char>>
        });
    }
    r
}

} // verus!
