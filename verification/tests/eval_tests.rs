use std::path::PathBuf;

use starglyph::desktop::{data_attribution, image_meta, progress_event};
use starglyph::eval::{
    build_scene_track, build_solver_track, build_stress_track, is_attempted, is_solved,
    parse_ids, parse_tracks, select_entries, text_less, FrameStatus, ManifestEntry, TrackFrame,
};
use starglyph::files::{file_name, is_image_ext, path_to_string, WcsRowConvention};
use starglyph::solve::{ladder_prefixes, stage_to_string, SolveStage};

#[test]
fn is_image_ext_recognizes_supported_formats() {
    assert!(is_image_ext("foo.tiff"));
    assert!(is_image_ext("foo.TIF"));
    assert!(is_image_ext("foo.png"));
    assert!(!is_image_ext("foo.txt"));
}

#[test]
fn image_extensions_need_an_extension() {
    assert!(is_image_ext("dir/x.JpEg"));
    assert!(is_image_ext("a.bmp"));
    assert!(!is_image_ext("png"));
    assert!(!is_image_ext(".png"));
    assert!(is_image_ext("dir/.x.png"));
    assert!(!is_image_ext("x.png."));
}

#[test]
fn convention_from_path_extension() {
    assert_eq!(WcsRowConvention::for_image_path("images/a.tiff"), WcsRowConvention::TopDown);
    assert_eq!(WcsRowConvention::for_image_path("images/a.TIF"), WcsRowConvention::TopDown);
    assert_eq!(WcsRowConvention::for_image_path("images/a.jpg"), WcsRowConvention::Flipped);
    assert_eq!(WcsRowConvention::for_image_path("images/noext"), WcsRowConvention::Flipped);
}

/// astrometry.net's `get_orientation`/`get_parity` applied to a `CD` matrix
/// (`cd[row][col]`, row 0 = East, row 1 = North).
fn get_orientation_of_cd(cd: [[f64; 2]; 2]) -> (f64, f64) {
    let det = cd[0][0] * cd[1][1] - cd[0][1] * cd[1][0];
    let parity = if det >= 0.0 { 1.0 } else { -1.0 };
    let t = parity * cd[0][0] + cd[1][1];
    let a = parity * cd[1][0] - cd[0][1];
    let orient = -(a.atan2(t)).to_degrees();
    (orient, parity)
}

#[test]
fn orientation_is_position_angle_east_of_north() {
    let (o0, p0) = get_orientation_of_cd([[1.0, 0.0], [0.0, 1.0]]);
    assert!(o0.abs() < 1e-9, "north-up orientation {o0}");
    assert!(p0 > 0.0);

    let a = 10.0_f64.to_radians();
    let (o10, _) = get_orientation_of_cd([[a.cos(), a.sin()], [-a.sin(), a.cos()]]);
    assert!((o10 - 10.0).abs() < 1e-9, "tilt orientation {o10}");

    let (_, pm) = get_orientation_of_cd([[-1.0, 0.0], [0.0, 1.0]]);
    assert!(pm < 0.0);
}

#[test]
fn ladder_dedupes_and_caps() {
    assert_eq!(ladder_prefixes(25), vec![8, 10, 12, 16, 20, 25]);
    assert_eq!(ladder_prefixes(12), vec![8, 10, 12]);
    assert_eq!(ladder_prefixes(6), vec![6]);
    assert_eq!(ladder_prefixes(40), vec![8, 10, 12, 16, 20, 30]);
    assert_eq!(ladder_prefixes(4), vec![4]);
}

#[test]
fn ladder_is_empty_below_the_minimum() {
    assert!(ladder_prefixes(3).is_empty());
    assert!(ladder_prefixes(0).is_empty());
    assert_eq!(ladder_prefixes(9), vec![8, 9]);
}

#[test]
fn stage_names() {
    assert_eq!(stage_to_string(SolveStage::Detect), "detect");
    assert_eq!(stage_to_string(SolveStage::LoadIndex), "load_index");
    assert_eq!(stage_to_string(SolveStage::Overlay), "overlay");
    assert_eq!(progress_event(SolveStage::Match).stage, "match");
    assert_eq!(progress_event(SolveStage::Match).detail, None);
}

fn entry(id: &str, file: &str, track: &str) -> ManifestEntry {
    ManifestEntry {
        id: id.to_owned(),
        file: file.to_owned(),
        track: track.to_owned(),
        solve_status: None,
        wcs: None,
        width: None,
        height: None,
    }
}

fn sample_manifest() -> Vec<ManifestEntry> {
    vec![
        entry("a_solver", "images/a.tiff", "solver"),
        entry("b_scene", "images/b.jpg", "scene"),
        entry("c_stress", "images-stress-tier-b/c.tiff", "stress"),
    ]
}

#[test]
fn manifest_parsing_and_filtering() {
    let manifest = sample_manifest();
    assert_eq!(manifest.len(), 3);

    let solver_only = vec!["solver".to_owned()];
    let sel = select_entries(&manifest, &solver_only, None).expect("select");
    assert_eq!(sel.len(), 1);
    assert_eq!(sel[0].id, "a_solver");

    let all_tracks = vec!["solver".to_owned(), "scene".to_owned(), "stress".to_owned()];
    let sel = select_entries(&manifest, &all_tracks, None).expect("select");
    assert_eq!(sel.len(), 3);

    let ids = vec!["a_solver".to_owned(), "c_stress".to_owned()];
    let sel = select_entries(&manifest, &all_tracks, Some(&ids)).expect("ids");
    assert_eq!(sel.len(), 2);
    assert_eq!(sel[0].id, "a_solver");
    assert_eq!(sel[1].id, "c_stress");

    let bad = vec!["missing".to_owned()];
    assert!(select_entries(&manifest, &solver_only, Some(&bad)).is_err());
}

#[test]
fn track_and_id_lists() {
    assert_eq!(parse_ids(" a, ,b ,"), vec!["a".to_owned(), "b".to_owned()]);
    assert_eq!(
        parse_tracks("solver, scene,solver").unwrap(),
        vec!["solver".to_owned(), "scene".to_owned()]
    );
    assert_eq!(
        parse_tracks("solver,moon").unwrap_err(),
        "unknown track 'moon', expected solver, scene, or stress"
    );
    assert!(parse_tracks(" , ").is_err());
}

#[test]
fn frame_statuses_and_track_counts() {
    assert!(is_attempted(&FrameStatus::Failed));
    assert!(!is_attempted(&FrameStatus::MissingImage));
    assert!(!is_attempted(&FrameStatus::LoadError));
    assert!(is_solved(&FrameStatus::Solved));
    assert!(!is_solved(&FrameStatus::Failed));
    let frames = vec![
        frame("s1", FrameStatus::Solved, None),
        frame("s2", FrameStatus::Failed, Some("no_match")),
        frame("s3", FrameStatus::MissingImage, None),
        frame("s4", FrameStatus::Solved, None),
    ];
    let scene = build_scene_track(&frames);
    assert_eq!((scene.n, scene.attempted, scene.solved), (4, 3, 2));
    assert_eq!(scene.unexpected_solves, vec!["s1".to_owned(), "s4".to_owned()]);
    let stress = build_stress_track(&frames);
    assert_eq!((stress.n, stress.attempted, stress.solved), (4, 3, 2));
}

#[test]
fn file_names_and_paths() {
    assert_eq!(file_name("a/b/frame.png"), "frame.png");
    assert_eq!(file_name("/"), "");
    assert_eq!(path_to_string(PathBuf::from("/tmp/x.png")), Ok(Some("/tmp/x.png".to_owned())));
}

#[test]
fn image_metadata_from_name() {
    let meta = image_meta(
        7,
        "/data/2011-09-20_23-49-51-296_Gain-128_Exp-20m.tiff",
        "2011-09-20_23-49-51-296_Gain-128_Exp-20m",
        640,
        480,
    );
    assert_eq!(meta.id, 7);
    assert_eq!(meta.file_name, "2011-09-20_23-49-51-296_Gain-128_Exp-20m.tiff");
    assert_eq!(meta.timestamp.as_deref(), Some("2011-09-20 23:49:51"));
    assert_eq!(meta.exposure_label.as_deref(), Some("20m"));
    let plain = image_meta(1, "x.png", "x", 1, 1);
    assert_eq!(plain.timestamp, None);
    assert_eq!(plain.exposure_label, None);
}

#[test]
fn attribution_lists_catalog_and_figures() {
    let info = data_attribution();
    assert_eq!(info.items.len(), 2);
    assert_eq!(info.items[0].name, "HYG v4.2");
    assert_eq!(info.items[0].license, "CC BY-SA 4.0");
}

fn frame(id: &str, status: FrameStatus, code: Option<&str>) -> TrackFrame {
    TrackFrame { id: id.to_owned(), status, failure_code: code.map(str::to_owned) }
}

#[test]
fn solver_track_counts_failures_by_code() {
    let frames = vec![
        frame("a", FrameStatus::Failed, Some("no_match")),
        frame("b", FrameStatus::Solved, None),
        frame("c", FrameStatus::Failed, Some("low_snr")),
        frame("d", FrameStatus::MissingImage, None),
        frame("e", FrameStatus::Failed, Some("no_match")),
        frame("f", FrameStatus::LoadError, None),
        frame("g", FrameStatus::Failed, None),
        frame("h", FrameStatus::Solved, Some("ignored")),
    ];
    let t = build_solver_track(&frames);
    assert_eq!((t.n, t.attempted, t.solved), (8, 6, 2));
    assert_eq!(
        t.failures_by_code,
        vec![("low_snr".to_owned(), 1), ("no_match".to_owned(), 2)]
    );
    assert_eq!(t.missing, vec!["d".to_owned()]);
    assert_eq!(t.load_errors, vec!["f".to_owned()]);
    assert!(build_solver_track(&[]).failures_by_code.is_empty());
}

#[test]
fn text_order_matches_string_order() {
    let words = ["", "a", "ab", "b", "B", "é", "z", "za", "ä"];
    for x in words {
        for y in words {
            assert_eq!(text_less(x, y), x < y, "{x:?} < {y:?}");
        }
    }
}
