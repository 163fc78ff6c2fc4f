//! Civil-calendar arithmetic and acquisition timestamps encoded in frame
//! file names (`YYYY-MM-DD_HH-MM-SS-mmm...` and `CD_YYYY-MM-DD_HHMM...`).

use vstd::prelude::*;

use crate::text::{
    chars_of, parse_i32_range, parse_i32_seq, parse_u32_range, parse_u32_seq,
    push_decimal_padded, push_char, push_signed_decimal_padded, decimal_padded,
    signed_decimal_padded,
};

verus! {

/// Timestamp parsed from a frame filename stem.
#[derive(Debug, Clone, Copy, PartialEq, Eq, Structural)]
pub struct FrameTimestamp {
    pub year: i32,
    pub month: u32,
    pub day: u32,
    pub hour: u32,
    pub minute: u32,
    pub second: u32,
    pub millisecond: u32,
}

// ---------------------------------------------------------------------------
// Calendar rules
// ---------------------------------------------------------------------------

/// Gregorian leap-year rule.
pub open spec fn spec_is_leap_year(year: int) -> bool {
    (year % 4 == 0 && year % 100 != 0) || year % 400 == 0
}

/// Length of `month` in `year`; months outside `1..=12` count 30 days.
pub open spec fn spec_days_in_month(year: int, month: int) -> int {
    if month == 1 || month == 3 || month == 5 || month == 7 || month == 8 || month == 10
        || month == 12 {
        31
    } else if month == 4 || month == 6 || month == 9 || month == 11 {
        30
    } else if month == 2 {
        if spec_is_leap_year(year) {
            29
        } else {
            28
        }
    } else {
        30
    }
}

/// Days in the months of `year` that precede `month`.
pub open spec fn days_before_month(year: int, month: int) -> int
    decreases month,
{
    if month <= 1 {
        0
    } else {
        days_before_month(year, month - 1) + spec_days_in_month(year, month - 1)
    }
}

/// Ordinal day of `day` of `month` in `year` (1 on January 1st).
pub open spec fn spec_day_of_year(year: int, month: int, day: int) -> int {
    days_before_month(year, month) + day
}

/// `(year, month, day)` names a real calendar date.
pub open spec fn valid_date(year: int, month: int, day: int) -> bool {
    1 <= month <= 12 && 1 <= day <= spec_days_in_month(year, month)
}

/// The calendar date before `(year, month, day)`.
pub open spec fn spec_prev_day(year: int, month: int, day: int) -> (int, int, int) {
    if day > 1 {
        (year, month, day - 1)
    } else if month > 1 {
        (year, month - 1, spec_days_in_month(year, month - 1))
    } else {
        (year - 1, 12, 31)
    }
}

/// The calendar date after `(year, month, day)`.
pub open spec fn spec_next_day(year: int, month: int, day: int) -> (int, int, int) {
    if day < spec_days_in_month(year, month) {
        (year, month, day + 1)
    } else if month < 12 {
        (year, month + 1, 1)
    } else {
        (year + 1, 1, 1)
    }
}

proof fn lemma_divisible_neg(x: int, d: int)
    requires
        d > 0,
    ensures
        (x % d == 0) == ((-x) % d == 0),
{
    vstd::arithmetic::div_mod::lemma_fundamental_div_mod(x, d);
    vstd::arithmetic::div_mod::lemma_fundamental_div_mod(-x, d);
    if x % d == 0 {
        vstd::arithmetic::div_mod::lemma_mod_multiples_basic(-(x / d), d);
        assert(-(x / d) * d == -x) by (nonlinear_arith)
            requires
                x == d * (x / d),
        ;
    }
    if (-x) % d == 0 {
        vstd::arithmetic::div_mod::lemma_mod_multiples_basic(-((-x) / d), d);
        assert(-((-x) / d) * d == x) by (nonlinear_arith)
            requires
                -x == d * ((-x) / d),
        ;
    }
}

/// Gregorian leap-year test.
pub fn is_leap_year(year: i32) -> (r: bool)
    ensures
        r == spec_is_leap_year(year as int),
{
    let y: i64 = year as i64;
    let a: i64 = if y < 0 { -y } else { y };
    proof {
        lemma_divisible_neg(y as int, 4);
        lemma_divisible_neg(y as int, 100);
        lemma_divisible_neg(y as int, 400);
    }
    (a % 4 == 0 && a % 100 != 0) || a % 400 == 0
}

/// Number of days in `month` of `year` (months outside `1..=12` count 30).
pub fn days_in_month(year: i32, month: u32) -> (r: u32)
    ensures
        r as int == spec_days_in_month(year as int, month as int),
        28 <= r <= 31,
{
    match month {
        1 | 3 | 5 | 7 | 8 | 10 | 12 => 31,
        4 | 6 | 9 | 11 => 30,
        2 => {
            if is_leap_year(year) {
                29
            } else {
                28
            }
        },
        _ => 30,
    }
}

/// Days of the common-year months before `month` (`month <= 12`).
fn common_days_before(month: u32) -> (r: u32)
    requires
        month <= 12,
    ensures
        r as int == days_before_month(2001, month as int),
        r <= 334,
{
    proof {
        reveal_with_fuel(days_before_month, 13);
    }
    match month {
        0 | 1 => 0,
        2 => 31,
        3 => 59,
        4 => 90,
        5 => 120,
        6 => 151,
        7 => 181,
        8 => 212,
        9 => 243,
        10 => 273,
        11 => 304,
        _ => 334,
    }
}

proof fn lemma_days_before_leap(year: int, month: int)
    requires
        month <= 12,
    ensures
        days_before_month(year, month) == days_before_month(2001, month) + (if month > 2
            && spec_is_leap_year(year) { 1int } else { 0int }),
    decreases month,
{
    if month > 1 {
        lemma_days_before_leap(year, month - 1);
    }
}

/// Ordinal day in the year.
pub fn day_of_year(year: i32, month: u32, day: u32) -> (r: u32)
    requires
        month <= 12,
        day as int + 335 <= u32::MAX,
    ensures
        r as int == spec_day_of_year(year as int, month as int, day as int),
{
    proof {
        lemma_days_before_leap(year as int, month as int);
    }
    let mut doy = common_days_before(month) + day;
    if month > 2 && is_leap_year(year) {
        doy = doy + 1;
    }
    doy
}

/// The calendar date before the given one.
pub fn prev_day(year: i32, month: u32, day: u32) -> (r: (i32, u32, u32))
    requires
        day > 1 || month > 1 || year > i32::MIN,
    ensures
        (r.0 as int, r.1 as int, r.2 as int) == spec_prev_day(year as int, month as int, day as int),
{
    if day > 1 {
        return (year, month, day - 1);
    }
    if month > 1 {
        let pm = month - 1;
        return (year, pm, days_in_month(year, pm));
    }
    (year - 1, 12, 31)
}

/// The calendar date after the given one.
pub fn next_day(year: i32, month: u32, day: u32) -> (r: (i32, u32, u32))
    requires
        day < spec_days_in_month(year as int, month as int) || month < 12 || year < i32::MAX,
    ensures
        (r.0 as int, r.1 as int, r.2 as int) == spec_next_day(year as int, month as int, day as int),
{
    let dim = days_in_month(year, month);
    if day < dim {
        return (year, month, day + 1);
    }
    if month < 12 {
        return (year, month + 1, 1);
    }
    (year + 1, 1, 1)
}

// ---------------------------------------------------------------------------
// Laws of the calendar
// ---------------------------------------------------------------------------

/// Stepping a valid date one day forward or back yields a valid date.
pub proof fn lemma_step_keeps_validity(year: int, month: int, day: int)
    requires
        valid_date(year, month, day),
    ensures
        ({
            let (y, m, d) = spec_next_day(year, month, day);
            valid_date(y, m, d)
        }),
        ({
            let (y, m, d) = spec_prev_day(year, month, day);
            valid_date(y, m, d)
        }),
{
}

/// Going one day forward then one day back returns the starting date, and
/// going back then forward does too.
pub proof fn lemma_next_prev_inverse(year: int, month: int, day: int)
    requires
        valid_date(year, month, day),
    ensures
        ({
            let (y, m, d) = spec_next_day(year, month, day);
            spec_prev_day(y, m, d) == (year, month, day)
        }),
        ({
            let (y, m, d) = spec_prev_day(year, month, day);
            spec_next_day(y, m, d) == (year, month, day)
        }),
{
}

/// Within a year the next day's ordinal is one more; at the year's last
/// day the next day is January 1st, ordinal 1.
pub proof fn lemma_next_day_ordinal(year: int, month: int, day: int)
    requires
        valid_date(year, month, day),
    ensures
        ({
            let (y, m, d) = spec_next_day(year, month, day);
            if y == year {
                spec_day_of_year(y, m, d) == spec_day_of_year(year, month, day) + 1
            } else {
                spec_day_of_year(y, m, d) == 1
            }
        }),
{
}

/// Every valid date has an ordinal between 1 and the length of its year.
pub proof fn lemma_day_of_year_range(year: int, month: int, day: int)
    requires
        valid_date(year, month, day),
    ensures
        1 <= spec_day_of_year(year, month, day) <= (if spec_is_leap_year(year) { 366int } else { 365int }),
{
    lemma_days_before_leap(year, month);
    reveal_with_fuel(days_before_month, 13);
}

// ---------------------------------------------------------------------------
// Timestamps in frame names
// ---------------------------------------------------------------------------

/// `YYYY-MM-DD_HH-MM-SS-mmm` at the start of `s`: each numeric field read as
/// the standard library reads an `i32` (year) or `u32` (the others).
pub open spec fn prefix_timestamp_of(s: Seq<char>) -> Option<FrameTimestamp> {
    if s.len() >= 23 && s[4] == '-' && s[7] == '-' && s[10] == '_' && s[13] == '-' && s[16]
        == '-' && s[19] == '-' && parse_i32_seq(s.subrange(0, 4)) is Some && parse_u32_seq(
        s.subrange(5, 7),
    ) is Some && parse_u32_seq(s.subrange(8, 10)) is Some && parse_u32_seq(s.subrange(11, 13)) is Some
        && parse_u32_seq(s.subrange(14, 16)) is Some && parse_u32_seq(s.subrange(17, 19)) is Some
        && parse_u32_seq(s.subrange(20, 23)) is Some {
        Some(
            FrameTimestamp {
                year: parse_i32_seq(s.subrange(0, 4))->0,
                month: parse_u32_seq(s.subrange(5, 7))->0,
                day: parse_u32_seq(s.subrange(8, 10))->0,
                hour: parse_u32_seq(s.subrange(11, 13))->0,
                minute: parse_u32_seq(s.subrange(14, 16))->0,
                second: parse_u32_seq(s.subrange(17, 19))->0,
                millisecond: parse_u32_seq(s.subrange(20, 23))->0,
            },
        )
    } else {
        None
    }
}

/// `CD_YYYY-MM-DD_HHMM` at the start of `s`; seconds and milliseconds are zero.
pub open spec fn cd_timestamp_of(s: Seq<char>) -> Option<FrameTimestamp> {
    let r = s.subrange(3, s.len() as int);
    if s.len() >= 18 && s[0] == 'C' && s[1] == 'D' && s[2] == '_' && r[4] == '-' && r[7] == '-'
        && r[10] == '_' && parse_i32_seq(r.subrange(0, 4)) is Some && parse_u32_seq(
        r.subrange(5, 7),
    ) is Some && parse_u32_seq(r.subrange(8, 10)) is Some && parse_u32_seq(r.subrange(11, 13)) is Some
        && parse_u32_seq(r.subrange(13, 15)) is Some {
        Some(
            FrameTimestamp {
                year: parse_i32_seq(r.subrange(0, 4))->0,
                month: parse_u32_seq(r.subrange(5, 7))->0,
                day: parse_u32_seq(r.subrange(8, 10))->0,
                hour: parse_u32_seq(r.subrange(11, 13))->0,
                minute: parse_u32_seq(r.subrange(13, 15))->0,
                second: 0,
                millisecond: 0,
            },
        )
    } else {
        None
    }
}

/// Value of the decimal digits `s[i..j]`.
pub open spec fn digits_at(s: Seq<char>, i: int, j: int) -> int
    decreases j - i,
{
    if j <= i {
        0
    } else {
        digits_at(s, i, j - 1) * 10 + crate::text::digit_value(s[j - 1])
    }
}

/// The separators and digits of `YYYY-MM-DD_HH-MM-SS-mmm` fill the first 23
/// characters of `s`.
pub open spec fn prefix_pattern(s: Seq<char>) -> bool {
    &&& s.len() >= 23
    &&& s[4] == '-' && s[7] == '-' && s[10] == '_' && s[13] == '-' && s[16] == '-' && s[19] == '-'
    &&& forall|i: int|
        0 <= i < 23 && i != 4 && i != 7 && i != 10 && i != 13 && i != 16 && i != 19
            ==> crate::text::is_digit(#[trigger] s[i])
}

proof fn lemma_digits_field(s: Seq<char>, i: int, j: int)
    requires
        0 <= i < j <= s.len(),
        j - i <= 4,
        forall|k: int| i <= k < j ==> crate::text::is_digit(#[trigger] s[k]),
    ensures
        parse_u32_seq(s.subrange(i, j)) == Some(digits_at(s, i, j) as u32),
        parse_i32_seq(s.subrange(i, j)) == Some(digits_at(s, i, j) as i32),
        0 <= digits_at(s, i, j) < 10000,
    decreases j - i,
{
    let b = s.subrange(i, j);
    assert(crate::text::is_digit(b[0]));
    assert(crate::text::all_digits(b));
    lemma_digits_value_at(s, i, j);
}

proof fn lemma_digits_value_at(s: Seq<char>, i: int, j: int)
    requires
        0 <= i <= j <= s.len(),
        j - i <= 4,
        forall|k: int| i <= k < j ==> crate::text::is_digit(#[trigger] s[k]),
    ensures
        crate::text::digits_value(s.subrange(i, j)) == digits_at(s, i, j),
        0 <= digits_at(s, i, j) < (if j - i == 0 { 1int } else if j - i == 1 { 10int } else if j - i == 2 {
            100int
        } else if j - i == 3 { 1000int } else { 10000int }),
    decreases j - i,
{
    if j > i {
        lemma_digits_value_at(s, i, j - 1);
        assert(s.subrange(i, j).drop_last() =~= s.subrange(i, j - 1));
        assert(crate::text::is_digit(s[j - 1]));
    } else {
        assert(s.subrange(i, j).len() == 0);
    }
}

/// A name that starts with `YYYY-MM-DD_HH-MM-SS-mmm` carries exactly that
/// timestamp, whatever follows the milliseconds (nothing at all included):
/// each field is the value of its digits.
pub proof fn lemma_prefix_timestamp_reads_fields(s: Seq<char>)
    requires
        prefix_pattern(s),
    ensures
        prefix_timestamp_of(s) == Some(
            FrameTimestamp {
                year: digits_at(s, 0, 4) as i32,
                month: digits_at(s, 5, 7) as u32,
                day: digits_at(s, 8, 10) as u32,
                hour: digits_at(s, 11, 13) as u32,
                minute: digits_at(s, 14, 16) as u32,
                second: digits_at(s, 17, 19) as u32,
                millisecond: digits_at(s, 20, 23) as u32,
            },
        ),
        timestamp_of(s) == prefix_timestamp_of(s),
{
    lemma_digits_field(s, 0, 4);
    lemma_digits_field(s, 5, 7);
    lemma_digits_field(s, 8, 10);
    lemma_digits_field(s, 11, 13);
    lemma_digits_field(s, 14, 16);
    lemma_digits_field(s, 17, 19);
    lemma_digits_field(s, 20, 23);
}

/// The prefix timestamp depends on the first 23 characters only: cutting the
/// name right after the milliseconds reads the same timestamp.
pub proof fn lemma_prefix_timestamp_first_23(s: Seq<char>)
    requires
        s.len() >= 23,
    ensures
        prefix_timestamp_of(s) == prefix_timestamp_of(s.subrange(0, 23)),
{
    let c = s.subrange(0, 23);
    assert(c.subrange(0, 4) =~= s.subrange(0, 4));
    assert(c.subrange(5, 7) =~= s.subrange(5, 7));
    assert(c.subrange(8, 10) =~= s.subrange(8, 10));
    assert(c.subrange(11, 13) =~= s.subrange(11, 13));
    assert(c.subrange(14, 16) =~= s.subrange(14, 16));
    assert(c.subrange(17, 19) =~= s.subrange(17, 19));
    assert(c.subrange(20, 23) =~= s.subrange(20, 23));
}

/// The timestamp a frame name carries: the prefix pattern first, then the
/// `CD_` pattern.
pub open spec fn timestamp_of(s: Seq<char>) -> Option<FrameTimestamp> {
    match prefix_timestamp_of(s) {
        Some(t) => Some(t),
        None => cd_timestamp_of(s),
    }
}

/// Reads the date part `YYYY-MM-DD_` of `cs` starting at `at`.
fn parse_date_part(cs: &[char], at: usize) -> (r: Option<(i32, u32, u32)>)
    requires
        at + 11 <= cs@.len(),
    ensures
        ({
            let s = cs@.subrange(at as int, cs@.len() as int);
            match r {
                Some((y, m, d)) => s[4] == '-' && s[7] == '-' && s[10] == '_' && parse_i32_seq(
                    s.subrange(0, 4),
                ) == Some(y) && parse_u32_seq(s.subrange(5, 7)) == Some(m) && parse_u32_seq(
                    s.subrange(8, 10),
                ) == Some(d),
                None => !(s[4] == '-' && s[7] == '-' && s[10] == '_' && parse_i32_seq(
                    s.subrange(0, 4),
                ) is Some && parse_u32_seq(s.subrange(5, 7)) is Some && parse_u32_seq(
                    s.subrange(8, 10),
                ) is Some),
            }
        }),
{
    let n = cs.len();
    let ghost s = cs@.subrange(at as int, cs@.len() as int);
    assert(s.subrange(0, 4) =~= cs@.subrange(at as int, at + 4));
    assert(s.subrange(5, 7) =~= cs@.subrange(at + 5, at + 7));
    assert(s.subrange(8, 10) =~= cs@.subrange(at + 8, at + 10));
    let year = match parse_i32_range(cs, at, at + 4) {
        Some(v) => v,
        None => return None,
    };
    if cs[at + 4] != '-' {
        return None;
    }
    let month = match parse_u32_range(cs, at + 5, at + 7) {
        Some(v) => v,
        None => return None,
    };
    if cs[at + 7] != '-' {
        return None;
    }
    let day = match parse_u32_range(cs, at + 8, at + 10) {
        Some(v) => v,
        None => return None,
    };
    if cs[at + 10] != '_' {
        return None;
    }
    Some((year, month, day))
}

/// Parses the `YYYY-MM-DD_HH-MM-SS-mmm` pattern at the start of the name.
pub fn parse_prefix_timestamp(stem: &str) -> (r: Option<FrameTimestamp>)
    ensures
        r == prefix_timestamp_of(stem@),
{
    let cs = chars_of(stem);
    if cs.len() < 23 {
        return None;
    }
    let ghost s = cs@;
    assert(s.subrange(0, s.len() as int) =~= s);
    let (year, month, day) = match parse_date_part(cs.as_slice(), 0) {
        Some(t) => t,
        None => return None,
    };
    let hour = match parse_u32_range(cs.as_slice(), 11, 13) {
        Some(v) => v,
        None => return None,
    };
    if cs[13] != '-' {
        return None;
    }
    let minute = match parse_u32_range(cs.as_slice(), 14, 16) {
        Some(v) => v,
        None => return None,
    };
    if cs[16] != '-' {
        return None;
    }
    let second = match parse_u32_range(cs.as_slice(), 17, 19) {
        Some(v) => v,
        None => return None,
    };
    if cs[19] != '-' {
        return None;
    }
    let millisecond = match parse_u32_range(cs.as_slice(), 20, 23) {
        Some(v) => v,
        None => return None,
    };
    Some(FrameTimestamp { year, month, day, hour, minute, second, millisecond })
}

/// Parses the `CD_YYYY-MM-DD_HHMM` pattern at the start of the name.
pub fn parse_cd_timestamp(stem: &str) -> (r: Option<FrameTimestamp>)
    ensures
        r == cd_timestamp_of(stem@),
{
    let cs = chars_of(stem);
    if cs.len() < 18 || cs[0] != 'C' || cs[1] != 'D' || cs[2] != '_' {
        return None;
    }
    let ghost s = cs@;
    let ghost rest = s.subrange(3, s.len() as int);
    let (year, month, day) = match parse_date_part(cs.as_slice(), 3) {
        Some(t) => t,
        None => return None,
    };
    assert(rest.subrange(11, 13) =~= s.subrange(14, 16));
    assert(rest.subrange(13, 15) =~= s.subrange(16, 18));
    let hour = match parse_u32_range(cs.as_slice(), 14, 16) {
        Some(v) => v,
        None => return None,
    };
    let minute = match parse_u32_range(cs.as_slice(), 16, 18) {
        Some(v) => v,
        None => return None,
    };
    Some(FrameTimestamp { year, month, day, hour, minute, second: 0, millisecond: 0 })
}

/// The acquisition timestamp encoded in a frame name, if any.
pub fn parse_timestamp_from_stem(stem: &str) -> (r: Option<FrameTimestamp>)
    ensures
        r == timestamp_of(stem@),
{
    if let Some(timestamp) = parse_prefix_timestamp(stem) {
        return Some(timestamp);
    }
    parse_cd_timestamp(stem)
}

/// `YYYY-MM-DD HH:MM:SS` rendering of a timestamp (year, month, day, hour,
/// minute and second, each zero-padded as `{:04}` / `{:02}`).
pub open spec fn timestamp_display(t: FrameTimestamp) -> Seq<char> {
    signed_decimal_padded(t.year as int, 4) + seq!['-'] + decimal_padded(t.month as nat, 2)
        + seq!['-'] + decimal_padded(t.day as nat, 2) + seq![' '] + decimal_padded(
        t.hour as nat,
        2,
    ) + seq![':'] + decimal_padded(t.minute as nat, 2) + seq![':'] + decimal_padded(
        t.second as nat,
        2,
    )
}

/// Formats a timestamp as `YYYY-MM-DD HH:MM:SS`.
pub fn format_timestamp(timestamp: FrameTimestamp) -> (r: String)
    ensures
        r@ == timestamp_display(timestamp),
{
    let mut out = String::new();
    push_signed_decimal_padded(&mut out, timestamp.year as i64, 4);
    push_char(&mut out, '-');
    push_decimal_padded(&mut out, timestamp.month as u64, 2);
    push_char(&mut out, '-');
    push_decimal_padded(&mut out, timestamp.day as u64, 2);
    push_char(&mut out, ' ');
    push_decimal_padded(&mut out, timestamp.hour as u64, 2);
    push_char(&mut out, ':');
    push_decimal_padded(&mut out, timestamp.minute as u64, 2);
    push_char(&mut out, ':');
    push_decimal_padded(&mut out, timestamp.second as u64, 2);
    assert(out@ =~= timestamp_display(timestamp));
    out
}

} // verus!
