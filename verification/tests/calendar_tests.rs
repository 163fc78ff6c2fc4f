use std::time::{Duration, SystemTime, UNIX_EPOCH};

use starglyph::calendar::{
    day_of_year, days_in_month, is_leap_year, next_day, parse_cd_timestamp,
    parse_prefix_timestamp, parse_timestamp_from_stem, prev_day, FrameTimestamp,
};
use starglyph::telemetry::{civil_from_days, rfc3339_from_unix, rfc3339_utc_ms};

fn at(secs: u64, millis: u32) -> SystemTime {
    UNIX_EPOCH + Duration::from_secs(secs) + Duration::from_millis(millis as u64)
}

#[test]
fn rfc3339_formats_known_instants() {
    assert_eq!(rfc3339_utc_ms(at(0, 0)), "1970-01-01T00:00:00.000Z");
    assert_eq!(rfc3339_utc_ms(at(86_399, 999)), "1970-01-01T23:59:59.999Z");
    // 2000-02-29 (leap day) and the day after.
    assert_eq!(rfc3339_utc_ms(at(951_782_400, 0)), "2000-02-29T00:00:00.000Z");
    assert_eq!(rfc3339_utc_ms(at(951_868_800, 1)), "2000-03-01T00:00:00.001Z");
}

#[test]
fn rfc3339_from_parts_pads_every_field() {
    assert_eq!(rfc3339_from_unix(1_700_000_000, 7), "2023-11-14T22:13:20.007Z");
    assert_eq!(rfc3339_from_unix(3_600 + 60 + 1, 10), "1970-01-01T01:01:01.010Z");
}

#[test]
fn instants_before_the_epoch_render_as_the_epoch() {
    let before = UNIX_EPOCH - Duration::from_secs(10);
    assert_eq!(rfc3339_utc_ms(before), "1970-01-01T00:00:00.000Z");
}

#[test]
fn civil_from_days_known_dates() {
    assert_eq!(civil_from_days(0), (1970, 1, 1));
    assert_eq!(civil_from_days(-1), (1969, 12, 31));
    assert_eq!(civil_from_days(59), (1970, 3, 1));
    assert_eq!(civil_from_days(11_016), (2000, 2, 29));
    assert_eq!(civil_from_days(11_017), (2000, 3, 1));
    assert_eq!(civil_from_days(-719_468), (0, 3, 1));
    assert_eq!(civil_from_days(-719_469), (0, 2, 29));
    assert_eq!(civil_from_days(47_541), (2100, 3, 1));
    assert_eq!(civil_from_days(47_540), (2100, 2, 28));
}

#[test]
fn consecutive_day_counts_are_consecutive_dates() {
    let mut z: i64 = -800_000;
    while z < 800_000 {
        let (y, m, d) = civil_from_days(z);
        let (ny, nm, nd) = civil_from_days(z + 1);
        assert_eq!(next_day(y as i32, m as u32, d as u32), (ny as i32, nm as u32, nd as u32));
        assert_eq!(prev_day(ny as i32, nm as u32, nd as u32), (y as i32, m as u32, d as u32));
        z += 997;
    }
}

#[test]
fn leap_year_rule() {
    assert!(is_leap_year(2000));
    assert!(is_leap_year(2024));
    assert!(!is_leap_year(1900));
    assert!(!is_leap_year(2023));
    assert!(is_leap_year(-4));
    assert!(is_leap_year(0));
}

#[test]
fn month_lengths_and_ordinals() {
    assert_eq!(days_in_month(2024, 2), 29);
    assert_eq!(days_in_month(2023, 2), 28);
    assert_eq!(days_in_month(2023, 4), 30);
    assert_eq!(days_in_month(2023, 12), 31);
    assert_eq!(day_of_year(2023, 1, 1), 1);
    assert_eq!(day_of_year(2023, 12, 31), 365);
    assert_eq!(day_of_year(2024, 12, 31), 366);
    assert_eq!(day_of_year(2024, 3, 1), 61);
}

#[test]
fn stepping_days_crosses_month_and_year_ends() {
    assert_eq!(next_day(2023, 12, 31), (2024, 1, 1));
    assert_eq!(next_day(2024, 2, 28), (2024, 2, 29));
    assert_eq!(next_day(2023, 2, 28), (2023, 3, 1));
    assert_eq!(prev_day(2024, 3, 1), (2024, 2, 29));
    assert_eq!(prev_day(2024, 1, 1), (2023, 12, 31));
}

#[test]
fn parses_prefix_timestamp_pattern() {
    assert_eq!(
        parse_timestamp_from_stem("2011-09-20_23-49-51-296_Gain-128_Exp-20m"),
        Some(FrameTimestamp {
            year: 2011,
            month: 9,
            day: 20,
            hour: 23,
            minute: 49,
            second: 51,
            millisecond: 296,
        })
    );
}

#[test]
fn parses_cd_timestamp_pattern() {
    assert_eq!(
        parse_timestamp_from_stem("CD_2011-09-19_0020"),
        Some(FrameTimestamp {
            year: 2011,
            month: 9,
            day: 19,
            hour: 0,
            minute: 20,
            second: 0,
            millisecond: 0,
        })
    );
}

#[test]
fn returns_none_for_unrecognized_name() {
    assert_eq!(parse_timestamp_from_stem("g128_40ms_1s"), None);
}

#[test]
fn timestamp_patterns_separately() {
    assert!(parse_prefix_timestamp("CD_2011-09-19_0020").is_none());
    assert!(parse_cd_timestamp("2011-09-20_23-49-51-296").is_none());
    assert_eq!(
        parse_cd_timestamp("CD_2011-09-19_2359_extra").map(|t| (t.hour, t.minute)),
        Some((23, 59))
    );
}

#[test]
fn rfc3339_text_sorts_like_instants() {
    let instants = [(0u64, 0u32), (0, 1), (59, 999), (60, 0), (86_399, 999), (86_400, 0), (951_782_400, 0), (253_402_300_799, 999)];
    for w in instants.windows(2) {
        assert!(rfc3339_from_unix(w[0].0, w[0].1) < rfc3339_from_unix(w[1].0, w[1].1));
    }
    assert_eq!(rfc3339_from_unix(253_402_300_799, 999), "9999-12-31T23:59:59.999Z");
}
