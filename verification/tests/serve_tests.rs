use starglyph::contracts::{SolveStatus, SolveTimingMs};
use starglyph::serve::{parse_bool, parse_overlay, ApiError, OverlayMode};
use starglyph::telemetry::{
    completed_outcome, completed_timing, detection_count, rejected_timing, ImageInfo, TimingInfo,
};

#[test]
fn overlay_modes_parse_case_and_space_insensitively() {
    assert_eq!(parse_overlay("png").unwrap(), OverlayMode::Png);
    assert_eq!(parse_overlay(" INLINE ").unwrap(), OverlayMode::Inline);
    assert_eq!(parse_overlay("").unwrap(), OverlayMode::Omit);
    assert_eq!(parse_overlay("None").unwrap(), OverlayMode::Omit);
}

#[test]
fn solve_rejects_unknown_overlay_modes() {
    let err = parse_overlay(" Gif ").unwrap_err();
    assert_eq!(err.status, 400);
    assert_eq!(err.code, "bad_overlay");
    assert_eq!(err.message, "overlay must be 'png', 'inline' or 'none', got 'gif'");
}

#[test]
fn booleans_parse_and_reject() {
    for v in ["1", "true", "YES", " on "] {
        assert_eq!(parse_bool("grid", v).unwrap(), true);
    }
    for v in ["", "0", "False", "no", "OFF"] {
        assert_eq!(parse_bool("grid", v).unwrap(), false);
    }
    let err = parse_bool("grid", "maybe").unwrap_err();
    assert_eq!(err.status, 400);
    assert_eq!(err.code, "bad_bool");
    assert_eq!(err.message, "field 'grid' must be a boolean, got 'maybe'");
}

#[test]
fn error_envelopes() {
    let e = ApiError::busy(30);
    assert_eq!((e.status, e.code), (503, "busy"));
    assert_eq!(e.message, "no engine became free within 30s; retry later");
    let e = ApiError::solve_timeout(0);
    assert_eq!((e.status, e.code), (504, "solve_timeout"));
    assert_eq!(e.message, "solve exceeded 0s");
    let e = ApiError::not_ready();
    assert_eq!((e.status, e.code), (503, "not_ready"));
    assert_eq!(e.message, "bootstrap database is still warming; poll /readyz");
    let e = ApiError::internal("boom".to_owned());
    assert_eq!((e.status, e.code, e.message.as_str()), (500, "internal", "boom"));
    let e = ApiError::bad_request("missing_image", "multipart field 'image' is required".to_owned());
    assert_eq!(e.status, 400);
}

#[test]
fn timing_of_rejected_and_completed_requests() {
    let t = rejected_timing(120, None);
    assert_eq!(
        t,
        TimingInfo { wall_ms: 120, queue_ms: 0, detect_ms: None, solve_ms: None, total_ms: None }
    );
    let t = completed_timing(500, Some(20), Some(SolveTimingMs { detect: 5, solve: 40, total: 50 }));
    assert_eq!(
        t,
        TimingInfo {
            wall_ms: 500,
            queue_ms: 20,
            detect_ms: Some(5),
            solve_ms: Some(40),
            total_ms: Some(50),
        }
    );
    assert_eq!(completed_timing(9, Some(1), None), rejected_timing(9, Some(1)));
}

#[test]
fn failed_record_keeps_outcome_and_detection_count() {
    assert_eq!(completed_outcome(SolveStatus::Solved), "solved");
    assert_eq!(completed_outcome(SolveStatus::Failed), "failed");
    assert_eq!(detection_count(Some(12), 30), Some(12));
    assert_eq!(detection_count(None, 30), Some(30));
    assert_eq!(detection_count(None, 0), None);
    let info = ImageInfo { width: 640, height: 480 };
    assert_eq!((info.width, info.height), (640, 480));
}
