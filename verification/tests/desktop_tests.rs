use starglyph::calendar::{format_timestamp, parse_timestamp_from_stem, FrameTimestamp};
use starglyph::desktop::{is_exposure_token, parse_exposure_label, parse_startup_args};

#[test]
fn parses_exp_prefix_exposure() {
    assert_eq!(
        parse_exposure_label("2011-09-20_23-49-51-296_Gain-128_Exp-20m"),
        Some("20m".to_string())
    );
}

#[test]
fn parses_trailing_exposure_token() {
    assert_eq!(parse_exposure_label("g128_40ms_1s"), Some("1s".to_string()));
}

#[test]
fn returns_none_when_no_exposure() {
    assert_eq!(parse_exposure_label("frame_without_exposure"), None);
}

#[test]
fn exposure_marker_stops_at_next_marker_or_underscore() {
    assert_eq!(parse_exposure_label("a_Exp-5sExp-7s"), Some("5s".to_string()));
    assert_eq!(parse_exposure_label("Exp-_x_40ms"), Some("40ms".to_string()));
    assert_eq!(parse_exposure_label(""), None);
}

#[test]
fn exposure_tokens_need_digits_then_unit() {
    assert!(is_exposure_token("40ms"));
    assert!(is_exposure_token("1s"));
    assert!(is_exposure_token("20m"));
    assert!(!is_exposure_token("ms"));
    assert!(!is_exposure_token("40mss"));
    assert!(!is_exposure_token("4x0s"));
    assert!(!is_exposure_token(""));
}

#[test]
fn parse_startup_args_extracts_path_and_flag() {
    let req = parse_startup_args(&["--auto-solve", "/tmp/frame.png"]).expect("request");
    assert_eq!(req.path, "/tmp/frame.png");
    assert!(req.auto_solve);
}

#[test]
fn parse_startup_args_ignores_flags_without_path() {
    assert!(parse_startup_args(&["--auto-solve"]).is_none());
}

#[test]
fn parse_startup_args_keeps_first_positional() {
    let req = parse_startup_args(&["-v", "a.png", "b.png"]).expect("request");
    assert_eq!(req.path, "a.png");
    assert!(!req.auto_solve);
}

#[test]
fn formats_timestamp_with_padding() {
    let ts = FrameTimestamp {
        year: 2011,
        month: 9,
        day: 2,
        hour: 3,
        minute: 4,
        second: 5,
        millisecond: 6,
    };
    assert_eq!(format_timestamp(ts), "2011-09-02 03:04:05");
    let neg = FrameTimestamp { year: -5, ..ts };
    assert_eq!(format_timestamp(neg), "-005-09-02 03:04:05");
}

#[test]
fn timestamp_from_stem_patterns() {
    assert_eq!(
        parse_timestamp_from_stem("2011-09-20_23-49-51-296_Gain-128_Exp-20m"),
        Some(FrameTimestamp {
            year: 2011,
            month: 9,
            day: 20,
            hour: 23,
            minute: 49,
            second: 51,
            millisecond: 296,
        })
    );
    assert_eq!(
        parse_timestamp_from_stem("CD_2011-09-19_0020"),
        Some(FrameTimestamp {
            year: 2011,
            month: 9,
            day: 19,
            hour: 0,
            minute: 20,
            second: 0,
            millisecond: 0,
        })
    );
    assert_eq!(parse_timestamp_from_stem("g128_40ms_1s"), None);
}
