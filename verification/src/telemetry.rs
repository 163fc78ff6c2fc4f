//! Telemetry timestamps: RFC 3339 UTC rendering of wall-clock instants, built
//! on a day-count to civil-date conversion for the proleptic Gregorian
//! calendar, and the integer parts of a telemetry record.

use vstd::prelude::*;

use crate::calendar::{
    days_before_month, lemma_day_of_year_range, lemma_next_day_ordinal, spec_day_of_year,
    spec_days_in_month, spec_is_leap_year, spec_next_day, valid_date,
};
use crate::contracts::{SolveStatus, SolveTimingMs};
use crate::eval::text_lt;
use crate::text::{
    decimal, decimal_padded, digit_char, push_char, push_decimal_padded,
    push_signed_decimal_padded, signed_decimal_padded,
};

verus! {

// ---------------------------------------------------------------------------
// Day counts
// ---------------------------------------------------------------------------

/// Number of days in `year`.
pub open spec fn year_length(year: int) -> int {
    if spec_is_leap_year(year) {
        366
    } else {
        365
    }
}

/// Days from 1970-01-01 to January 1st of `year` (negative before 1970).
pub open spec fn days_to_year(year: int) -> int
    decreases (if year >= 1970 { year - 1970 } else { 1970 - year }),
{
    if year == 1970 {
        0
    } else if year > 1970 {
        days_to_year(year - 1) + year_length(year - 1)
    } else {
        days_to_year(year + 1) - year_length(year)
    }
}

/// Days from 1970-01-01 to the date `(year, month, day)`.
pub open spec fn days_from_epoch(year: int, month: int, day: int) -> int {
    days_to_year(year) + spec_day_of_year(year, month, day) - 1
}

/// Leap years among `1..=n` (with floor division, also meaningful for `n <= 0`).
spec fn leaps_through(n: int) -> int {
    n / 4 - n / 100 + n / 400
}

/// Days from March 1st of year 0 of a 400-year era to March 1st of its year `k`.
spec fn march_year_start(k: int) -> int {
    365 * k + k / 4 - k / 100
}

proof fn lemma_leap_step(n: int)
    ensures
        leaps_through(n) - leaps_through(n - 1) == (if spec_is_leap_year(n) { 1int } else { 0 }),
{
}

proof fn lemma_days_to_year_step(year: int)
    ensures
        days_to_year(year + 1) == days_to_year(year) + year_length(year),
{
    if year + 1 <= 1970 {
        assert(days_to_year(year) == days_to_year(year + 1) - year_length(year));
    }
}

proof fn lemma_days_to_year_closed(year: int)
    ensures
        days_to_year(year) == 365 * (year - 1970) + leaps_through(year - 1) - 477,
    decreases (if year >= 1970 { year - 1970 } else { 1970 - year }),
{
    if year > 1970 {
        lemma_days_to_year_closed(year - 1);
        lemma_leap_step(year - 1);
    } else if year < 1970 {
        lemma_days_to_year_closed(year + 1);
        lemma_leap_step(year);
    }
}

/// March 1st of year `400 * era + yoe`, counted from 1970-01-01.
#[verifier::spinoff_prover]
proof fn lemma_march_first(era: int, yoe: int)
    requires
        0 <= yoe <= 399,
    ensures
        days_to_year(400 * era + yoe) + 59 + (if spec_is_leap_year(400 * era + yoe) { 1int } else { 0 })
            == 146097 * era + march_year_start(yoe) - 719468,
{
    let y = 400 * era + yoe;
    lemma_days_to_year_closed(y);
    lemma_leap_step(y);
    assert((y - 1) / 4 == 100 * era + (yoe - 1) / 4);
    assert((y - 1) / 100 == 4 * era + (yoe - 1) / 100);
    assert((y - 1) / 400 == era + (yoe - 1) / 400);
    assert(y / 4 == 100 * era + yoe / 4);
    assert(y / 100 == 4 * era + yoe / 100);
    assert(y / 400 == era + yoe / 400);
    assert(leaps_through(y - 1) == 97 * era + leaps_through(yoe - 1));
    assert(leaps_through(y) == 97 * era + leaps_through(yoe));
}

/// The year of an era that a day of the era falls in.
#[verifier::spinoff_prover]
#[verifier::rlimit(60)]
proof fn lemma_year_of_era(doe: int)
    requires
        0 <= doe <= 146096,
    ensures
        ({
            let yoe = (doe - doe / 1460 + doe / 36524 - doe / 146096) / 365;
            &&& 0 <= yoe <= 399
            &&& march_year_start(yoe) <= doe
            &&& doe < march_year_start(yoe + 1) || (yoe == 399 && doe == 146096)
        }),
{
}

/// The March-based month of a day of a March-based year.
proof fn lemma_march_month(doy: int)
    requires
        0 <= doy <= 365,
    ensures
        ({
            let mp = (5 * doy + 2) / 153;
            &&& 0 <= mp <= 11
            &&& (153 * mp + 2) / 5 <= doy
            &&& mp < 11 ==> doy < (153 * (mp + 1) + 2) / 5
        }),
{
}

/// Howard Hinnant's decomposition of a day count yields the date that lies
/// that many days after 1970-01-01.
#[verifier::spinoff_prover]
#[verifier::rlimit(40)]
proof fn lemma_civil_parts(z: int, era: int, doe: int)
    requires
        z + 719468 == 146097 * era + doe,
        0 <= doe <= 146096,
    ensures
        ({
            let yoe = (doe - doe / 1460 + doe / 36524 - doe / 146096) / 365;
            let doy = doe - march_year_start(yoe);
            let mp = (5 * doy + 2) / 153;
            let d = doy - (153 * mp + 2) / 5 + 1;
            let m = if mp < 10 { mp + 3 } else { mp - 9 };
            let y = yoe + era * 400;
            let year = if m <= 2 { y + 1 } else { y };
            &&& 0 <= yoe <= 399
            &&& 0 <= doy <= 365
            &&& valid_date(year, m, d)
            &&& days_from_epoch(year, m, d) == z
        }),
{
    let yoe = (doe - doe / 1460 + doe / 36524 - doe / 146096) / 365;
    let doy = doe - march_year_start(yoe);
    lemma_year_of_era(doe);
    let y = yoe + era * 400;
    lemma_march_first(era, yoe);
    let leap_y: int = if spec_is_leap_year(y) { 1 } else { 0 };
    assert(z == days_to_year(y) + 59 + leap_y + doy);
    // The March-based year `y` ends with February of `y + 1`.
    let leap_next: int = if spec_is_leap_year(y + 1) { 1 } else { 0 };
    assert(spec_is_leap_year(y + 1) == spec_is_leap_year(yoe + 1));
    assert(doy <= 364 + leap_next);
    lemma_march_month(doy);
    let mp = (5 * doy + 2) / 153;
    let d = doy - (153 * mp + 2) / 5 + 1;
    let m = if mp < 10 { mp + 3 } else { mp - 9 };
    reveal_with_fuel(days_before_month, 13);
    if mp < 10 {
        assert(days_before_month(y, m) == 59 + leap_y + (153 * mp + 2) / 5) by {
            if mp == 0 {
            } else if mp == 1 {
            } else if mp == 2 {
            } else if mp == 3 {
            } else if mp == 4 {
            } else if mp == 5 {
            } else if mp == 6 {
            } else if mp == 7 {
            } else if mp == 8 {
            } else {
            }
        }
        assert(d <= spec_days_in_month(y, m)) by {
            if mp == 0 {
            } else if mp == 1 {
            } else if mp == 2 {
            } else if mp == 3 {
            } else if mp == 4 {
            } else if mp == 5 {
            } else if mp == 6 {
            } else if mp == 7 {
            } else if mp == 8 {
            } else {
            }
        }
    } else {
        lemma_days_to_year_step(y);
        if mp == 10 {
            assert(days_before_month(y + 1, 1) == 0);
        } else {
            assert(days_before_month(y + 1, 2) == 31);
        }
    }
}

/// The date that lies `z` days after 1970-01-01.
pub open spec fn civil_date(z: int) -> (int, int, int) {
    choose|t: (int, int, int)| valid_date(t.0, t.1, t.2) && days_from_epoch(t.0, t.1, t.2) == z
}

// ---------------------------------------------------------------------------
// Laws of the day count
// ---------------------------------------------------------------------------

proof fn lemma_days_to_year_grows(a: int, b: int)
    requires
        a <= b,
    ensures
        days_to_year(b) - days_to_year(a) >= 365 * (b - a),
    decreases b - a,
{
    if a < b {
        lemma_days_to_year_grows(a, b - 1);
        lemma_days_to_year_step(b - 1);
    }
}

proof fn lemma_days_before_month_grows(year: int, a: int, b: int)
    requires
        1 <= a <= b,
    ensures
        days_before_month(year, b) - days_before_month(year, a) >= 28 * (b - a),
    decreases b - a,
{
    if a < b {
        lemma_days_before_month_grows(year, a, b - 1);
    }
}

proof fn lemma_day_of_year_injective(year: int, m1: int, d1: int, m2: int, d2: int)
    requires
        valid_date(year, m1, d1),
        valid_date(year, m2, d2),
        spec_day_of_year(year, m1, d1) == spec_day_of_year(year, m2, d2),
    ensures
        m1 == m2,
        d1 == d2,
{
    if m1 < m2 {
        lemma_days_before_month_grows(year, m1 + 1, m2);
    } else if m2 < m1 {
        lemma_days_before_month_grows(year, m2 + 1, m1);
    }
}

/// Distinct valid dates lie a distinct number of days from 1970-01-01.
pub proof fn lemma_days_from_epoch_injective(y1: int, m1: int, d1: int, y2: int, m2: int, d2: int)
    requires
        valid_date(y1, m1, d1),
        valid_date(y2, m2, d2),
        days_from_epoch(y1, m1, d1) == days_from_epoch(y2, m2, d2),
    ensures
        y1 == y2,
        m1 == m2,
        d1 == d2,
{
    lemma_day_of_year_range(y1, m1, d1);
    lemma_day_of_year_range(y2, m2, d2);
    if y1 < y2 {
        lemma_days_to_year_step(y1);
        lemma_days_to_year_grows(y1 + 1, y2);
    } else if y2 < y1 {
        lemma_days_to_year_step(y2);
        lemma_days_to_year_grows(y2 + 1, y1);
    }
    lemma_day_of_year_injective(y1, m1, d1, m2, d2);
}

/// The day after a valid date is one day further from 1970-01-01.
pub proof fn lemma_days_from_epoch_next_day(year: int, month: int, day: int)
    requires
        valid_date(year, month, day),
    ensures
        ({
            let (y, m, d) = spec_next_day(year, month, day);
            days_from_epoch(y, m, d) == days_from_epoch(year, month, day) + 1
        }),
{
    lemma_next_day_ordinal(year, month, day);
    let (y, m, d) = spec_next_day(year, month, day);
    if y != year {
        lemma_days_to_year_step(year);
        reveal_with_fuel(days_before_month, 13);
    }
}

/// Every day count names exactly one date: the date of a valid date's own
/// count is that date.
pub proof fn lemma_civil_date_of_count(year: int, month: int, day: int)
    requires
        valid_date(year, month, day),
    ensures
        civil_date(days_from_epoch(year, month, day)) == (year, month, day),
{
    let z = days_from_epoch(year, month, day);
    let w = (year, month, day);
    assert(valid_date(w.0, w.1, w.2) && days_from_epoch(w.0, w.1, w.2) == z);
    assert(exists|t: (int, int, int)| valid_date(t.0, t.1, t.2) && days_from_epoch(t.0, t.1, t.2) == z);
    let t = civil_date(z);
    lemma_days_from_epoch_injective(t.0, t.1, t.2, year, month, day);
}

// ---------------------------------------------------------------------------
// Conversions
// ---------------------------------------------------------------------------

/// The date `z` days after 1970-01-01 (Howard Hinnant's `civil_from_days`),
/// as `(year, month, day)`.
pub fn civil_from_days(z: i64) -> (r: (i64, u64, u64))
    requires
        z <= i64::MAX - 719_468,
    ensures
        valid_date(r.0 as int, r.1 as int, r.2 as int),
        days_from_epoch(r.0 as int, r.1 as int, r.2 as int) == z,
        (r.0 as int, r.1 as int, r.2 as int) == civil_date(z as int),
{
    let zz: i64 = z + 719_468;
    let era: i64 = match zz.checked_div_euclid(146_097) {
        Some(q) => q,
        None => 0,
    };
    let doe_signed: i64 = match zz.checked_rem_euclid(146_097) {
        Some(r) => r,
        None => 0,
    };
    proof {
        vstd::arithmetic::div_mod::lemma_fundamental_div_mod(zz as int, 146_097);
        assert(0 <= doe_signed < 146_097);
        assert(-0x8000_0000_0000 <= era <= 0x8000_0000_0000) by (nonlinear_arith)
            requires
                zz == 146_097 * era + doe_signed,
                0 <= doe_signed < 146_097,
                i64::MIN <= zz <= i64::MAX,
        ;
        lemma_civil_parts(z as int, era as int, doe_signed as int);
    }
    let doe: u64 = doe_signed as u64;
    let yoe: u64 = (doe - doe / 1460 + doe / 36_524 - doe / 146_096) / 365;
    let y: i64 = yoe as i64 + era * 400;
    let doy: u64 = doe - (365 * yoe + yoe / 4 - yoe / 100);
    let mp: u64 = (5 * doy + 2) / 153;
    let d: u64 = doy - (153 * mp + 2) / 5 + 1;
    let m: u64 = if mp < 10 {
        mp + 3
    } else {
        mp - 9
    };
    let year: i64 = if m <= 2 {
        y + 1
    } else {
        y
    };
    proof {
        lemma_civil_date_of_count(year as int, m as int, d as int);
    }
    (year, m, d)
}

/// The RFC 3339 text `YYYY-MM-DDTHH:MM:SS.mmmZ` of the instant `secs` seconds
/// and `millis` milliseconds after 1970-01-01T00:00:00Z.
pub open spec fn rfc3339_text(secs: nat, millis: nat) -> Seq<char> {
    let (y, m, d) = civil_date(secs as int / 86400);
    let sod = secs % 86400;
    signed_decimal_padded(y, 4) + seq!['-'] + decimal_padded(m as nat, 2) + seq!['-']
        + decimal_padded(d as nat, 2) + seq!['T'] + decimal_padded(sod / 3600, 2) + seq![':']
        + decimal_padded((sod % 3600) / 60, 2) + seq![':'] + decimal_padded(sod % 60, 2) + seq![
        '.',
    ] + decimal_padded(millis, 3) + seq!['Z']
}

/// RFC 3339 UTC text with millisecond precision of an instant given as whole
/// seconds and milliseconds since the Unix epoch.
#[verifier::spinoff_prover]
pub fn rfc3339_from_unix(secs: u64, millis: u32) -> (r: String)
    ensures
        r@ == rfc3339_text(secs as nat, millis as nat),
{
    let (y, m, day) = civil_from_days((secs / 86_400) as i64);
    let sod: u64 = secs % 86_400;
    let mut out = String::new();
    push_signed_decimal_padded(&mut out, y, 4);
    push_char(&mut out, '-');
    push_decimal_padded(&mut out, m, 2);
    push_char(&mut out, '-');
    push_decimal_padded(&mut out, day, 2);
    push_char(&mut out, 'T');
    push_decimal_padded(&mut out, sod / 3600, 2);
    push_char(&mut out, ':');
    push_decimal_padded(&mut out, (sod % 3600) / 60, 2);
    push_char(&mut out, ':');
    push_decimal_padded(&mut out, sod % 60, 2);
    push_char(&mut out, '.');
    push_decimal_padded(&mut out, millis as u64, 3);
    push_char(&mut out, 'Z');
    proof {
        let t = civil_date(secs as int / 86400);
        assert(t == (y as int, m as int, day as int));
        assert(out@ =~= rfc3339_text(secs as nat, millis as nat));
    }
    out
}

// ---------------------------------------------------------------------------
// Wall-clock instants
// ---------------------------------------------------------------------------

#[verifier::external_type_specification]
#[verifier::external_body]
pub struct ExSystemTime(std::time::SystemTime);

/// How far the instant `t` lies after the Unix epoch, as
/// `SystemTime::duration_since(UNIX_EPOCH)` measures it; `None` for an
/// instant before the epoch.
pub uninterp spec fn unix_offset(t: std::time::SystemTime) -> Option<std::time::Duration>;

/// The whole seconds of `d`, as `Duration::as_secs` reads them.
pub uninterp spec fn duration_secs(d: std::time::Duration) -> u64;

/// The fractional part of `d` in whole milliseconds, as
/// `Duration::subsec_millis` reads it.
pub uninterp spec fn duration_subsec_millis(d: std::time::Duration) -> u32;

/// `SystemTime::duration_since(UNIX_EPOCH)`, its error (an instant before the
/// epoch) mapped to `None`.
#[verifier::external_body]
fn since_unix_epoch(t: std::time::SystemTime) -> (r: Option<std::time::Duration>)
    ensures
        r == unix_offset(t),
{
    t.duration_since(std::time::UNIX_EPOCH).ok()
}

/// `Duration::as_secs`: the whole seconds of `d`.
#[verifier::external_body]
fn whole_seconds(d: &std::time::Duration) -> (r: u64)
    ensures
        r == duration_secs(*d),
{
    d.as_secs()
}

/// `Duration::subsec_millis`: the fractional part of `d` in whole
/// milliseconds, which std documents to be below one thousand.
#[verifier::external_body]
fn millisecond_part(d: &std::time::Duration) -> (r: u32)
    ensures
        r == duration_subsec_millis(*d),
        r < 1000,
{
    d.subsec_millis()
}

/// The RFC 3339 text of the instant `t`: its whole seconds and milliseconds
/// after the epoch, or the epoch itself for an instant before it.
pub open spec fn instant_text(t: std::time::SystemTime) -> Seq<char> {
    match unix_offset(t) {
        Some(d) => rfc3339_text(duration_secs(d) as nat, duration_subsec_millis(d) as nat),
        None => rfc3339_text(0, 0),
    }
}

/// RFC 3339 UTC text (`2026-07-06T18:20:00.123Z`) of a wall-clock instant;
/// instants before the Unix epoch render as the epoch.
pub fn rfc3339_utc_ms(t: std::time::SystemTime) -> (r: String)
    ensures
        r@ == instant_text(t),
{
    match since_unix_epoch(t) {
        Some(d) => {
            let secs = whole_seconds(&d);
            let millis = millisecond_part(&d);
            rfc3339_from_unix(secs, millis)
        },
        None => rfc3339_from_unix(0, 0),
    }
}

// ---------------------------------------------------------------------------
// Record parts
// ---------------------------------------------------------------------------

/// Pixel size of the submitted image.
#[derive(Debug, Clone, Copy, PartialEq, Eq, Structural)]
pub struct ImageInfo {
    pub width: u32,
    pub height: u32,
}

/// Durations of one request in milliseconds.
#[derive(Debug, Clone, Copy, PartialEq, Eq, Structural)]
pub struct TimingInfo {
    /// Wall time inside the handler (queue wait + solve + render + encode).
    pub wall_ms: u64,
    /// Time spent waiting for a free engine (0 when unknown or rejected earlier).
    pub queue_ms: u64,
    pub detect_ms: Option<u64>,
    pub solve_ms: Option<u64>,
    pub total_ms: Option<u64>,
}

/// Timing of a request that never reached a solve: no stage times.
pub fn rejected_timing(wall_ms: u64, queue_ms: Option<u64>) -> (t: TimingInfo)
    ensures
        t.wall_ms == wall_ms,
        t.queue_ms == (match queue_ms {
            Some(q) => q,
            None => 0,
        }),
        t.detect_ms is None,
        t.solve_ms is None,
        t.total_ms is None,
{
    TimingInfo {
        wall_ms,
        queue_ms: match queue_ms {
            Some(q) => q,
            None => 0,
        },
        detect_ms: None,
        solve_ms: None,
        total_ms: None,
    }
}

/// Timing of a request whose solve ran: the stage times come from the
/// solve report when it has them.
pub fn completed_timing(wall_ms: u64, queue_ms: Option<u64>, stages: Option<SolveTimingMs>) -> (t: TimingInfo)
    ensures
        t.wall_ms == wall_ms,
        t.queue_ms == (match queue_ms {
            Some(q) => q,
            None => 0,
        }),
        t.detect_ms == (match stages {
            Some(s) => Some(s.detect),
            None => None,
        }),
        t.solve_ms == (match stages {
            Some(s) => Some(s.solve),
            None => None,
        }),
        t.total_ms == (match stages {
            Some(s) => Some(s.total),
            None => None,
        }),
{
    let base = rejected_timing(wall_ms, queue_ms);
    match stages {
        Some(s) => TimingInfo {
            detect_ms: Some(s.detect),
            solve_ms: Some(s.solve),
            total_ms: Some(s.total),
            ..base
        },
        None => base,
    }
}

/// Outcome label of a request whose solve ran.
pub fn completed_outcome(status: SolveStatus) -> (r: &'static str)
    ensures
        status is Solved ==> r@ == "solved"@,
        status is Failed ==> r@ == "failed"@,
{
    match status {
        SolveStatus::Solved => "solved",
        SolveStatus::Failed => "failed",
    }
}

/// Detection count of a completed record: the count the solve quality
/// reports, else the number of listed detections when there are any.
pub fn detection_count(quality_detections: Option<u32>, listed: usize) -> (r: Option<u32>)
    ensures
        r == (match quality_detections {
            Some(n) => Some(n),
            None => if listed > 0 {
                Some(listed as u32)
            } else {
                None
            },
        }),
{
    match quality_detections {
        Some(n) => Some(n),
        None => if listed > 0 {
            Some(listed as u32)
        } else {
            None
        },
    }
}

// ---------------------------------------------------------------------------
// Order of timestamps
// ---------------------------------------------------------------------------

/// `n` fits the fixed-width field of `width` digits used in timestamps (a
/// four-digit year has no leading zero).
pub open spec fn field_fits(n: nat, width: nat) -> bool {
    ||| width == 2 && n < 100
    ||| width == 3 && n < 1000
    ||| width == 4 && 1000 <= n < 10000
}

proof fn lemma_digit_char_order(a: nat, b: nat)
    requires
        a < 10,
        b < 10,
    ensures
        a < b ==> digit_char(a) < digit_char(b),
        a == b <==> digit_char(a) == digit_char(b),
        digit_char(0) == '0',
{
}

/// A fitting field prints as exactly its digits.
proof fn lemma_field_digits(n: nat, width: nat)
    requires
        field_fits(n, width),
    ensures
        width == 2 ==> decimal_padded(n, width) == seq![digit_char(n / 10), digit_char(n % 10)],
        width == 3 ==> decimal_padded(n, width) == seq![
            digit_char(n / 100),
            digit_char((n / 10) % 10),
            digit_char(n % 10),
        ],
        width == 4 ==> decimal_padded(n, width) == seq![
            digit_char(n / 1000),
            digit_char((n / 100) % 10),
            digit_char((n / 10) % 10),
            digit_char(n % 10),
        ],
        decimal_padded(n, width).len() == width,
{
    lemma_digit_char_order(0, 0);
    reveal_with_fuel(decimal, 5);
    if width == 2 {
        if n < 10 {
            assert(decimal(n) == seq![digit_char(n)]);
            assert(decimal_padded(n, 2) =~= seq![digit_char(0), digit_char(n)]);
        } else {
            assert(decimal(n / 10) == seq![digit_char(n / 10)]);
            assert(decimal_padded(n, 2) =~= seq![digit_char(n / 10), digit_char(n % 10)]);
        }
    } else if width == 3 {
        if n < 10 {
            assert(decimal(n) == seq![digit_char(n)]);
            assert(decimal_padded(n, 3) =~= seq![digit_char(0), digit_char(0), digit_char(n)]);
        } else if n < 100 {
            assert(decimal(n / 10) == seq![digit_char(n / 10)]);
            assert(decimal(n) =~= seq![digit_char(n / 10), digit_char(n % 10)]);
            assert(decimal_padded(n, 3) =~= seq![digit_char(0), digit_char(n / 10), digit_char(n % 10)]);
        } else {
            assert(decimal(n / 100) == seq![digit_char(n / 100)]);
            assert((n / 10) / 10 == n / 100);
            assert(decimal(n / 10) =~= seq![digit_char(n / 100), digit_char((n / 10) % 10)]);
            assert(decimal_padded(n, 3) =~= seq![
                digit_char(n / 100),
                digit_char((n / 10) % 10),
                digit_char(n % 10),
            ]);
        }
    } else {
        assert(decimal(n / 1000) == seq![digit_char(n / 1000)]);
        assert((n / 100) / 10 == n / 1000);
        assert((n / 10) / 10 == n / 100);
        assert(decimal(n / 100) =~= seq![digit_char(n / 1000), digit_char((n / 100) % 10)]);
        assert(decimal(n / 10) =~= seq![
            digit_char(n / 1000),
            digit_char((n / 100) % 10),
            digit_char((n / 10) % 10),
        ]);
        assert(decimal_padded(n, 4) =~= seq![
            digit_char(n / 1000),
            digit_char((n / 100) % 10),
            digit_char((n / 10) % 10),
            digit_char(n % 10),
        ]);
    }
}

/// Equal-length texts that agree before position `k` and have a smaller
/// character at `k` are in text order.
proof fn lemma_text_lt_at(a: Seq<char>, b: Seq<char>, k: int)
    requires
        a.len() == b.len(),
        0 <= k < a.len(),
        forall|j: int| 0 <= j < k ==> a[j] == b[j],
        a[k] < b[k],
    ensures
        text_lt(a, b),
    decreases k,
{
    if k > 0 {
        assert(a[0] == b[0]);
        lemma_text_lt_at(a.drop_first(), b.drop_first(), k - 1);
    }
}

/// Appending to two equal-length texts keeps their order.
proof fn lemma_text_lt_concat(a1: Seq<char>, a2: Seq<char>, r1: Seq<char>, r2: Seq<char>)
    requires
        a1.len() == a2.len(),
        text_lt(a1, a2),
    ensures
        text_lt(a1 + r1, a2 + r2),
    decreases a1.len(),
{
    assert((a1 + r1)[0] == a1[0]);
    assert((a2 + r2)[0] == a2[0]);
    if a1[0] == a2[0] {
        assert((a1 + r1).drop_first() =~= a1.drop_first() + r1);
        assert((a2 + r2).drop_first() =~= a2.drop_first() + r2);
        lemma_text_lt_concat(a1.drop_first(), a2.drop_first(), r1, r2);
    }
}

/// A common prefix keeps the order of what follows it.
proof fn lemma_text_le_prefix(a: Seq<char>, r1: Seq<char>, r2: Seq<char>)
    requires
        text_lt(r1, r2) || r1 == r2,
    ensures
        text_lt(a + r1, a + r2) || a + r1 == a + r2,
    decreases a.len(),
{
    if a.len() == 0 {
        assert(a + r1 =~= r1);
        assert(a + r2 =~= r2);
    } else if r1 != r2 {
        let t = a.drop_first();
        assert((a + r1).drop_first() =~= t + r1);
        assert((a + r2).drop_first() =~= t + r2);
        lemma_text_le_prefix(t, r1, r2);
        if t + r1 == t + r2 {
            assert(r1.len() == r2.len());
            assert forall|i: int| 0 <= i < r1.len() implies r1[i] == r2[i] by {
                assert((t + r1)[t.len() + i] == (t + r2)[t.len() + i]);
            }
            assert(r1 =~= r2);
        }
        assert((a + r1)[0] == (a + r2)[0]);
        assert((a + r1).len() > 0 && (a + r2).len() > 0);
    }
}

/// A smaller two-digit field prints earlier in text order.
#[verifier::spinoff_prover]
proof fn lemma_field_order2(n1: nat, n2: nat)
    requires
        n1 < n2 < 100,
    ensures
        text_lt(decimal_padded(n1, 2), decimal_padded(n2, 2)),
{
    lemma_field_digits(n1, 2);
    lemma_field_digits(n2, 2);
    let (a, b) = (decimal_padded(n1, 2), decimal_padded(n2, 2));
    let (p1, q1, p2, q2) = (n1 / 10, n1 % 10, n2 / 10, n2 % 10);
    assert(n1 == 10 * p1 + q1 && q1 < 10 && n2 == 10 * p2 + q2 && q2 < 10);
    lemma_digit_char_order(p1, p2);
    lemma_digit_char_order(q1, q2);
    if p1 < p2 {
        lemma_text_lt_at(a, b, 0);
    } else {
        lemma_text_lt_at(a, b, 1);
    }
}

/// A smaller three-digit field prints earlier in text order.
#[verifier::spinoff_prover]
proof fn lemma_field_order3(n1: nat, n2: nat)
    requires
        n1 < n2 < 1000,
    ensures
        text_lt(decimal_padded(n1, 3), decimal_padded(n2, 3)),
{
    lemma_field_digits(n1, 3);
    lemma_field_digits(n2, 3);
    let (a, b) = (decimal_padded(n1, 3), decimal_padded(n2, 3));
    let (p1, q1, r1) = (n1 / 100, (n1 / 10) % 10, n1 % 10);
    let (p2, q2, r2) = (n2 / 100, (n2 / 10) % 10, n2 % 10);
    assert(n1 == 100 * p1 + 10 * q1 + r1 && q1 < 10 && r1 < 10);
    assert(n2 == 100 * p2 + 10 * q2 + r2 && q2 < 10 && r2 < 10);
    lemma_digit_char_order(p1, p2);
    lemma_digit_char_order(q1, q2);
    lemma_digit_char_order(r1, r2);
    if p1 < p2 {
        lemma_text_lt_at(a, b, 0);
    } else if q1 < q2 {
        lemma_text_lt_at(a, b, 1);
    } else {
        lemma_text_lt_at(a, b, 2);
    }
}

proof fn lemma_split_four(n: nat)
    requires
        n < 10000,
    ensures
        n == 1000 * (n / 1000) + 100 * ((n / 100) % 10) + 10 * ((n / 10) % 10) + n % 10,
        (n / 100) % 10 < 10,
        (n / 10) % 10 < 10,
        n % 10 < 10,
{
    let h = n / 100;
    let t = n / 10;
    assert(n == 100 * h + n % 100);
    assert(h == 10 * (n / 1000) + h % 10);
    assert(n == 10 * t + n % 10);
    assert(t == 10 * h + t % 10);
}

/// A smaller four-digit field prints earlier in text order.
#[verifier::spinoff_prover]
proof fn lemma_field_order4(n1: nat, n2: nat)
    requires
        1000 <= n1 < n2 < 10000,
    ensures
        text_lt(decimal_padded(n1, 4), decimal_padded(n2, 4)),
{
    lemma_field_digits(n1, 4);
    lemma_field_digits(n2, 4);
    let (a, b) = (decimal_padded(n1, 4), decimal_padded(n2, 4));
    let (p1, q1, r1, t1) = (n1 / 1000, (n1 / 100) % 10, (n1 / 10) % 10, n1 % 10);
    let (p2, q2, r2, t2) = (n2 / 1000, (n2 / 100) % 10, (n2 / 10) % 10, n2 % 10);
    lemma_split_four(n1);
    lemma_split_four(n2);
    lemma_digit_char_order(p1, p2);
    lemma_digit_char_order(q1, q2);
    lemma_digit_char_order(r1, r2);
    lemma_digit_char_order(t1, t2);
    if p1 < p2 {
        lemma_text_lt_at(a, b, 0);
    } else if q1 < q2 {
        lemma_text_lt_at(a, b, 1);
    } else if r1 < r2 {
        lemma_text_lt_at(a, b, 2);
    } else {
        lemma_text_lt_at(a, b, 3);
    }
}

proof fn lemma_field_order(n1: nat, n2: nat, width: nat)
    requires
        field_fits(n1, width),
        field_fits(n2, width),
        n1 < n2,
    ensures
        text_lt(decimal_padded(n1, width), decimal_padded(n2, width)),
{
    if width == 2 {
        lemma_field_order2(n1, n2);
    } else if width == 3 {
        lemma_field_order3(n1, n2);
    } else {
        lemma_field_order4(n1, n2);
    }
}

/// Fixed-width fields from index `i` on, each printed zero-padded and
/// followed by its separator.
pub open spec fn stamp_blocks(f: Seq<nat>, widths: Seq<nat>, seps: Seq<char>, i: int) -> Seq<char>
    decreases f.len() - i,
{
    if i < 0 || i >= f.len() {
        Seq::empty()
    } else {
        decimal_padded(f[i], widths[i]) + seq![seps[i]] + stamp_blocks(f, widths, seps, i + 1)
    }
}

/// Lexicographic order of field tuples from index `i` on.
pub open spec fn fields_le(a: Seq<nat>, b: Seq<nat>, i: int) -> bool
    decreases a.len() - i,
{
    if i < 0 || i >= a.len() {
        true
    } else if a[i] != b[i] {
        a[i] < b[i]
    } else {
        fields_le(a, b, i + 1)
    }
}

/// Ordered field tuples print in text order.
proof fn lemma_blocks_order(f1: Seq<nat>, f2: Seq<nat>, widths: Seq<nat>, seps: Seq<char>, i: int)
    requires
        0 <= i,
        f1.len() == f2.len(),
        f1.len() == widths.len(),
        f1.len() == seps.len(),
        forall|k: int| 0 <= k < f1.len() ==> field_fits(#[trigger] f1[k], widths[k]),
        forall|k: int| 0 <= k < f2.len() ==> field_fits(#[trigger] f2[k], widths[k]),
        fields_le(f1, f2, i),
    ensures
        text_lt(stamp_blocks(f1, widths, seps, i), stamp_blocks(f2, widths, seps, i))
            || stamp_blocks(f1, widths, seps, i) == stamp_blocks(f2, widths, seps, i),
    decreases f1.len() - i,
{
    if i < f1.len() {
        let rest1 = stamp_blocks(f1, widths, seps, i + 1);
        let rest2 = stamp_blocks(f2, widths, seps, i + 1);
        assert(field_fits(f1[i], widths[i]));
        assert(field_fits(f2[i], widths[i]));
        lemma_field_digits(f1[i], widths[i]);
        lemma_field_digits(f2[i], widths[i]);
        let d1 = decimal_padded(f1[i], widths[i]);
        let d2 = decimal_padded(f2[i], widths[i]);
        if f1[i] < f2[i] {
            lemma_field_order(f1[i], f2[i], widths[i]);
            lemma_text_lt_concat(d1, d2, seq![seps[i]] + rest1, seq![seps[i]] + rest2);
            assert(d1 + seq![seps[i]] + rest1 =~= d1 + (seq![seps[i]] + rest1));
            assert(d2 + seq![seps[i]] + rest2 =~= d2 + (seq![seps[i]] + rest2));
        } else {
            lemma_blocks_order(f1, f2, widths, seps, i + 1);
            lemma_text_le_prefix(d1 + seq![seps[i]], rest1, rest2);
        }
    }
}

/// Every day count has its date: `civil_date(z)` is valid and `z` days after
/// 1970-01-01.
proof fn lemma_civil_date_valid(z: int)
    ensures
        ({
            let t = civil_date(z);
            valid_date(t.0, t.1, t.2) && days_from_epoch(t.0, t.1, t.2) == z
        }),
{
    let n = z + 719468;
    vstd::arithmetic::div_mod::lemma_fundamental_div_mod(n, 146097);
    let era = n / 146097;
    let doe = n % 146097;
    assert(n == 146097 * era + doe);
    lemma_civil_parts(z, era, doe);
    let yoe = (doe - doe / 1460 + doe / 36524 - doe / 146096) / 365;
    let doy = doe - march_year_start(yoe);
    let mp = (5 * doy + 2) / 153;
    let d = doy - (153 * mp + 2) / 5 + 1;
    let m = if mp < 10 { mp + 3 } else { mp - 9 };
    let y = yoe + era * 400;
    let year = if m <= 2 { y + 1 } else { y };
    let w = (year, m, d);
    assert(valid_date(w.0, w.1, w.2) && days_from_epoch(w.0, w.1, w.2) == z);
    assert(exists|t: (int, int, int)| valid_date(t.0, t.1, t.2) && days_from_epoch(t.0, t.1, t.2) == z);
}

/// Valid dates in calendar order lie in the same order of day counts.
proof fn lemma_days_from_epoch_order(y1: int, m1: int, d1: int, y2: int, m2: int, d2: int)
    requires
        valid_date(y1, m1, d1),
        valid_date(y2, m2, d2),
        y1 < y2 || (y1 == y2 && (m1 < m2 || (m1 == m2 && d1 < d2))),
    ensures
        days_from_epoch(y1, m1, d1) < days_from_epoch(y2, m2, d2),
{
    lemma_day_of_year_range(y1, m1, d1);
    lemma_day_of_year_range(y2, m2, d2);
    if y1 < y2 {
        lemma_days_to_year_step(y1);
        lemma_days_to_year_grows(y1 + 1, y2);
    } else if m1 < m2 {
        assert(days_before_month(y1, m1 + 1) == days_before_month(y1, m1) + spec_days_in_month(y1, m1));
        lemma_days_before_month_grows(y1, m1 + 1, m2);
    }
}

/// Later day counts give later dates.
proof fn lemma_civil_date_order(z1: int, z2: int)
    requires
        z1 < z2,
    ensures
        ({
            let (y1, m1, d1) = civil_date(z1);
            let (y2, m2, d2) = civil_date(z2);
            y1 < y2 || (y1 == y2 && (m1 < m2 || (m1 == m2 && d1 < d2)))
        }),
{
    lemma_civil_date_valid(z1);
    lemma_civil_date_valid(z2);
    let (y1, m1, d1) = civil_date(z1);
    let (y2, m2, d2) = civil_date(z2);
    if y2 < y1 || (y1 == y2 && (m2 < m1 || (m1 == m2 && d2 < d1))) {
        lemma_days_from_epoch_order(y2, m2, d2, y1, m1, d1);
    }
}

/// Day counts from 0 to 2932896 (9999-12-31) fall in the years 1970 to 9999.
proof fn lemma_civil_year_range(z: int)
    requires
        0 <= z <= 2932896,
    ensures
        1970 <= civil_date(z).0 <= 9999,
{
    lemma_civil_date_valid(z);
    let (y, m, d) = civil_date(z);
    lemma_day_of_year_range(y, m, d);
    if y < 1970 {
        lemma_days_to_year_step(y);
        lemma_days_to_year_grows(y + 1, 1970);
    }
    if y > 9999 {
        lemma_days_to_year_closed(10000);
        assert(leaps_through(9999) == 2424);
        lemma_days_to_year_grows(10000, y);
    }
}

/// The printed fields of the instant `secs` seconds and `millis`
/// milliseconds after the epoch: year, month, day, hour, minute, second,
/// millisecond.
pub open spec fn stamp_fields(secs: nat, millis: nat) -> Seq<nat> {
    let (y, m, d) = civil_date(secs as int / 86400);
    let sod = secs % 86400;
    seq![y as nat, m as nat, d as nat, sod / 3600, (sod % 3600) / 60, sod % 60, millis]
}

/// Widths of the printed fields.
pub open spec fn stamp_widths() -> Seq<nat> {
    seq![4nat, 2, 2, 2, 2, 2, 3]
}

/// The separator printed after each field.
pub open spec fn stamp_separators() -> Seq<char> {
    seq!['-', '-', 'T', ':', ':', '.', 'Z']
}

/// First instant of the year 10000, in seconds after the epoch.
pub open spec fn year_ten_thousand_secs() -> nat {
    253_402_300_800
}

/// Regrouping fourteen pieces: fields and separators appended one by one
/// equal the field-and-separator pairs nested from the right.
proof fn lemma_regroup(a: Seq<Seq<char>>, c: Seq<char>)
    requires
        a.len() == 7,
        c.len() == 7,
    ensures
        a[0] + seq![c[0]] + a[1] + seq![c[1]] + a[2] + seq![c[2]] + a[3] + seq![c[3]] + a[4] + seq![c[4]]
            + a[5] + seq![c[5]] + a[6] + seq![c[6]] == (a[0] + seq![c[0]]) + ((a[1] + seq![c[1]]) + ((a[2]
            + seq![c[2]]) + ((a[3] + seq![c[3]]) + ((a[4] + seq![c[4]]) + ((a[5] + seq![c[5]]) + ((a[6]
            + seq![c[6]]) + Seq::<char>::empty())))))),
{
    let lhs = a[0] + seq![c[0]] + a[1] + seq![c[1]] + a[2] + seq![c[2]] + a[3] + seq![c[3]] + a[4]
        + seq![c[4]] + a[5] + seq![c[5]] + a[6] + seq![c[6]];
    let rhs = (a[0] + seq![c[0]]) + ((a[1] + seq![c[1]]) + ((a[2] + seq![c[2]]) + ((a[3] + seq![c[3]])
        + ((a[4] + seq![c[4]]) + ((a[5] + seq![c[5]]) + ((a[6] + seq![c[6]]) + Seq::<char>::empty()))))));
    assert(lhs =~= rhs);
}

/// The printed fields nest as `stamp_blocks` builds them.
proof fn lemma_stamp_blocks_unfold(f: Seq<nat>, ws: Seq<nat>, ss: Seq<char>)
    requires
        f.len() == 7,
    ensures
        stamp_blocks(f, ws, ss, 0) == (decimal_padded(f[0], ws[0]) + seq![ss[0]]) + ((decimal_padded(f[1], ws[1])
            + seq![ss[1]]) + ((decimal_padded(f[2], ws[2]) + seq![ss[2]]) + ((decimal_padded(f[3], ws[3])
            + seq![ss[3]]) + ((decimal_padded(f[4], ws[4]) + seq![ss[4]]) + ((decimal_padded(f[5], ws[5])
            + seq![ss[5]]) + ((decimal_padded(f[6], ws[6]) + seq![ss[6]]) + Seq::<char>::empty())))))),
{
    assert(stamp_blocks(f, ws, ss, 7) == Seq::<char>::empty());
    assert(stamp_blocks(f, ws, ss, 6) == decimal_padded(f[6], ws[6]) + seq![ss[6]] + stamp_blocks(f, ws, ss, 7));
    assert(stamp_blocks(f, ws, ss, 5) == decimal_padded(f[5], ws[5]) + seq![ss[5]] + stamp_blocks(f, ws, ss, 6));
    assert(stamp_blocks(f, ws, ss, 4) == decimal_padded(f[4], ws[4]) + seq![ss[4]] + stamp_blocks(f, ws, ss, 5));
    assert(stamp_blocks(f, ws, ss, 3) == decimal_padded(f[3], ws[3]) + seq![ss[3]] + stamp_blocks(f, ws, ss, 4));
    assert(stamp_blocks(f, ws, ss, 2) == decimal_padded(f[2], ws[2]) + seq![ss[2]] + stamp_blocks(f, ws, ss, 3));
    assert(stamp_blocks(f, ws, ss, 1) == decimal_padded(f[1], ws[1]) + seq![ss[1]] + stamp_blocks(f, ws, ss, 2));
}

/// Up to the year 9999 every field fits its width, and the RFC 3339 text is
/// the fields printed with their separators.
#[verifier::spinoff_prover]
proof fn lemma_stamp_form(secs: nat, millis: nat)
    requires
        secs < year_ten_thousand_secs(),
        millis < 1000,
    ensures
        forall|k: int| 0 <= k < 7 ==> field_fits(#[trigger] stamp_fields(secs, millis)[k], stamp_widths()[k]),
        rfc3339_text(secs, millis) == stamp_blocks(stamp_fields(secs, millis), stamp_widths(), stamp_separators(), 0),
{
    let z = secs as int / 86400;
    lemma_civil_year_range(z);
    lemma_civil_date_valid(z);
    let (y, m, d) = civil_date(z);
    let f = stamp_fields(secs, millis);
    let ws = stamp_widths();
    let ss = stamp_separators();
    assert(f[0] == y && f[1] == m && f[2] == d);
    assert forall|k: int| 0 <= k < 7 implies field_fits(#[trigger] f[k], ws[k]) by {}
    let a = Seq::new(7, |k: int| decimal_padded(f[k], ws[k]));
    lemma_stamp_blocks_unfold(f, ws, ss);
    lemma_regroup(a, ss);
    assert(signed_decimal_padded(y, 4) == a[0]);
    assert(a[1] == decimal_padded(m as nat, 2));
    assert(a[2] == decimal_padded(d as nat, 2));
    assert(ss[0] == '-' && ss[1] == '-' && ss[2] == 'T' && ss[3] == ':' && ss[4] == ':' && ss[5] == '.' && ss[6] == 'Z');
}

/// Later instants give later or equal fields.
proof fn lemma_stamp_fields_order(s1: nat, ms1: nat, s2: nat, ms2: nat)
    requires
        s1 < s2 || (s1 == s2 && ms1 <= ms2),
        s2 < year_ten_thousand_secs(),
    ensures
        fields_le(stamp_fields(s1, ms1), stamp_fields(s2, ms2), 0),
{
    let (z1, z2) = (s1 as int / 86400, s2 as int / 86400);
    let (f1, f2) = (stamp_fields(s1, ms1), stamp_fields(s2, ms2));
    lemma_civil_year_range(z1);
    lemma_civil_year_range(z2);
    lemma_civil_date_valid(z1);
    lemma_civil_date_valid(z2);
    let (y1, m1, d1) = civil_date(z1);
    let (y2, m2, d2) = civil_date(z2);
    assert(f1[0] == y1 && f1[1] == m1 && f1[2] == d1);
    assert(f2[0] == y2 && f2[1] == m2 && f2[2] == d2);
    if z1 < z2 {
        lemma_civil_date_order(z1, z2);
        if y1 == y2 && m1 == m2 {
            assert(fields_le(f1, f2, 2));
            assert(fields_le(f1, f2, 1));
        } else if y1 == y2 {
            assert(fields_le(f1, f2, 1));
        }
    } else {
        assert(z1 == z2);
        let (sod1, sod2) = (s1 % 86400, s2 % 86400);
        let (h1, i1, e1) = (sod1 / 3600, (sod1 % 3600) / 60, sod1 % 60);
        let (h2, i2, e2) = (sod2 / 3600, (sod2 % 3600) / 60, sod2 % 60);
        assert(sod1 <= sod2);
        assert(sod1 == 3600 * h1 + 60 * i1 + e1 && i1 < 60 && e1 < 60);
        assert(sod2 == 3600 * h2 + 60 * i2 + e2 && i2 < 60 && e2 < 60);
        assert(f1[3] == h1 && f2[3] == h2 && f1[4] == i1 && f2[4] == i2);
        assert(f1[5] == e1 && f2[5] == e2 && f1[6] == ms1 && f2[6] == ms2);
        if h1 == h2 {
            if i1 == i2 {
                if e1 == e2 {
                    assert(s1 == s2);
                    assert(fields_le(f1, f2, 7));
                    assert(fields_le(f1, f2, 6));
                }
                assert(fields_le(f1, f2, 5));
            }
            assert(fields_le(f1, f2, 4));
        }
        assert(fields_le(f1, f2, 3));
        assert(fields_le(f1, f2, 2));
        assert(fields_le(f1, f2, 1));
    }
}

/// RFC 3339 texts sort like their instants: up to the year 9999, a later
/// (or equal) instant never prints earlier in text order.
pub proof fn lemma_rfc3339_text_order(s1: nat, ms1: nat, s2: nat, ms2: nat)
    requires
        s1 < s2 || (s1 == s2 && ms1 <= ms2),
        s2 < year_ten_thousand_secs(),
        ms1 < 1000,
        ms2 < 1000,
    ensures
        text_lt(rfc3339_text(s1, ms1), rfc3339_text(s2, ms2)) || rfc3339_text(s1, ms1) == rfc3339_text(s2, ms2),
{
    lemma_stamp_form(s1, ms1);
    lemma_stamp_form(s2, ms2);
    lemma_stamp_fields_order(s1, ms1, s2, ms2);
    lemma_blocks_order(stamp_fields(s1, ms1), stamp_fields(s2, ms2), stamp_widths(), stamp_separators(), 0);
}

} // verus!
