use rand::RngCore;
use starglyph::data_paths::{
    catalog_candidate_paths, data_layout, first_present, frame_paths, relative_to_root,
    walk_up_candidates,
};
use starglyph::dataset::{
    frame_id, frame_timestamp_utc, generator_metadata, plan_from_config, reproducibility_verdict,
    schema_version, split_counts, split_frame_count, validate_splits, CatalogConfig,
    DatasetError, DatasetSplit, FrameArtifactRecord, PlannedFrame, SplitConfig,
};
use starglyph::ephem::Planet;
use starglyph::seeds::{splitmix64, SeedDeriver};
use starglyph::solver::{frame_matches_filter, sum_detection_counts, DetectionCounts};

#[test]
fn splitmix64_known_values() {
    assert_eq!(splitmix64(0), 0xE220_A839_7B1D_CDAF);
    assert_eq!(splitmix64(1), 0x910A_2DEC_8902_5CC1);
}

#[test]
fn frame_seeds_depend_on_split_and_index() {
    let d = SeedDeriver::new(42);
    assert_eq!(d.frame_seed(DatasetSplit::Train, 3), 0x3AE8_A9FE_61AE_C14B);
    assert_eq!(d.frame_seed(DatasetSplit::Val, 0), 0xE99A_A931_ECB2_B34D);
    assert_eq!(SeedDeriver::new(7).frame_seed(DatasetSplit::Test, 5), 0xF59A_58C2_A38D_DE90);
    assert_eq!(d.frame_seed(DatasetSplit::Train, 3), SeedDeriver::new(42).frame_seed(DatasetSplit::Train, 3));
}

#[test]
fn frame_rng_is_reproducible() {
    let d = SeedDeriver::new(9);
    let mut a = d.frame_rng(DatasetSplit::Val, 2);
    let mut b = d.frame_rng(DatasetSplit::Val, 2);
    assert_eq!(a.next_u64(), b.next_u64());
}

#[test]
fn split_names_and_totals() {
    assert_eq!(DatasetSplit::Train.as_str(), "train");
    assert_eq!(DatasetSplit::Val.as_str(), "val");
    assert_eq!(DatasetSplit::Test.as_str(), "test");
    let splits = SplitConfig::default();
    assert_eq!((splits.train_frames, splits.val_frames, splits.test_frames), (100, 20, 20));
    assert_eq!(splits.total_frames(), 140);
    assert_eq!(split_frame_count(&splits, DatasetSplit::Val), 20);
    let counts = split_counts(&splits);
    assert_eq!((counts.train, counts.val, counts.test), (100, 20, 20));
}

#[test]
fn plan_lists_train_then_val_then_test() {
    let splits = SplitConfig { train_frames: 2, val_frames: 1, test_frames: 2 };
    let plan = plan_from_config(&splits);
    assert_eq!(
        plan.frames,
        vec![
            PlannedFrame { split: DatasetSplit::Train, split_frame_index: 0 },
            PlannedFrame { split: DatasetSplit::Train, split_frame_index: 1 },
            PlannedFrame { split: DatasetSplit::Val, split_frame_index: 0 },
            PlannedFrame { split: DatasetSplit::Test, split_frame_index: 0 },
            PlannedFrame { split: DatasetSplit::Test, split_frame_index: 1 },
        ]
    );
    let meta = generator_metadata(&splits, plan.frames[4]);
    assert_eq!((meta.split_frame_index, meta.total_split_frames), (1, 2));
}

#[test]
fn empty_splits_are_reported_in_order() {
    assert_eq!(validate_splits(&SplitConfig::default()), Ok(()));
    assert_eq!(
        validate_splits(&SplitConfig { train_frames: 1, val_frames: 0, test_frames: 0 }),
        Err(DatasetError::EmptySplit { split: "val" })
    );
    assert_eq!(
        validate_splits(&SplitConfig { train_frames: 0, val_frames: 0, test_frames: 1 }),
        Err(DatasetError::EmptySplit { split: "train" })
    );
}

#[test]
fn frame_ids_and_timestamps() {
    assert_eq!(frame_id(0), "frame-000001");
    assert_eq!(frame_id(41), "frame-000042");
    assert_eq!(frame_id(1_234_567), "frame-1234568");
    assert_eq!(frame_timestamp_utc(DatasetSplit::Train, 0), "2023-11-14T22:13:20+00:00");
    assert_eq!(frame_timestamp_utc(DatasetSplit::Val, 5), "2023-11-14T22:30:05+00:00");
    assert_eq!(
        frame_timestamp_utc(DatasetSplit::Train, 3_000_000_000_000),
        "+97090-02-01T03:33:20+00:00"
    );
    assert_eq!(schema_version(), "starglyph.synthetic.v1");
}

#[test]
fn reproducibility_verdicts() {
    let ok = reproducibility_verdict("ab".to_owned(), "ab".to_owned()).unwrap();
    assert!(ok.equivalent);
    assert_eq!(
        reproducibility_verdict("ab".to_owned(), "cd".to_owned()),
        Err(DatasetError::ReproducibilityMismatch {
            first_digest: "ab".to_owned(),
            second_digest: "cd".to_owned(),
        })
    );
}

#[test]
fn default_catalog_is_the_built_in_sample() {
    let c = CatalogConfig::default();
    assert!(c.csv_path.is_none());
    assert_eq!((c.name.as_str(), c.subset.as_str(), c.license.as_str()),
        ("baseline-built-in", "bright-stars-sample", "internal-demo"));
}

fn record(split: &str) -> FrameArtifactRecord {
    FrameArtifactRecord {
        frame_id: "frame-000001".to_owned(),
        split: split.to_owned(),
        image_path: "train/frame-000001.png".into(),
        meta_path: "train/frame-000001.json".into(),
        truth_path: "train/frame-000001.csv".into(),
    }
}

#[test]
fn benchmark_split_filter() {
    assert!(frame_matches_filter(&record("val"), &None));
    assert!(frame_matches_filter(&record("val"), &Some(vec!["test".to_owned(), "val".to_owned()])));
    assert!(!frame_matches_filter(&record("val"), &Some(vec!["train".to_owned()])));
    assert!(!frame_matches_filter(&record("val"), &Some(vec![])));
}

#[test]
fn planet_names_in_solar_order() {
    let names: Vec<&str> = Planet::all().iter().map(|p| p.name()).collect();
    assert_eq!(names, vec!["Mercury", "Venus", "Mars", "Jupiter", "Saturn", "Uranus", "Neptune"]);
}

#[test]
fn resolves_via_walk_up() {
    assert_eq!(
        walk_up_candidates("/tmp/root/project/apps/desktop"),
        vec![
            "/tmp/root/project/apps/desktop".to_owned(),
            "/tmp/root/project/apps".to_owned(),
            "/tmp/root/project".to_owned(),
            "/tmp/root".to_owned(),
            "/tmp".to_owned(),
            "/".to_owned(),
        ]
    );
    assert_eq!(walk_up_candidates("rel/dir"), vec!["rel/dir".to_owned(), "rel".to_owned(), "".to_owned()]);
}

#[test]
fn resolves_from_explicit_root() {
    let layout = data_layout("/srv/sg");
    assert_eq!(
        layout.catalogs,
        vec![
            "/srv/sg/data/catalogs/hyg_v42.csv.gz".to_owned(),
            "/srv/sg/data/catalogs/hyg_v42.csv".to_owned(),
            "/srv/sg/data/catalogs/hyg_v3.csv.gz".to_owned(),
            "/srv/sg/data/catalogs/hyg_v3.csv".to_owned(),
        ]
    );
    assert!(layout.constellation_lines.ends_with("constellations.lines.json"));
    assert_eq!(layout.constellation_names, "/srv/sg/data/celestial/constellations.json");
    assert_eq!(first_present(&[false, false, true, true]), Some(2));
    assert_eq!(first_present(&[false, false]), None);
    assert_eq!(catalog_candidate_paths("c")[3], "c/hyg_v3.csv");
}

#[test]
fn paths_relative_to_the_dataset_root() {
    assert_eq!(relative_to_root("/out/ds", "/out/ds/train/frame-000001.png"), "train/frame-000001.png");
    assert_eq!(relative_to_root("/out/ds", "/elsewhere/x.png"), "/elsewhere/x.png");
}

#[test]
fn frame_files_live_under_split_and_frame_id() {
    let p = frame_paths("/out", PlannedFrame { split: DatasetSplit::Val, split_frame_index: 4 });
    assert_eq!(p.frame_id, "frame-000005");
    assert_eq!(p.frame_dir, "/out/val/frame-000005");
    assert_eq!(p.image, "/out/val/frame-000005/image.png");
    assert_eq!(p.truth, "/out/val/frame-000005/truth-stars.csv");
    assert_eq!(p.meta, "/out/val/frame-000005/meta.json");
    assert_eq!(relative_to_root("/out", &p.image), "val/frame-000005/image.png");
}

#[test]
fn detection_counts_sum_over_frames_with_metrics() {
    let m = vec![
        Some(DetectionCounts { tp: 3, fp: 1, fn_: 2 }),
        None,
        Some(DetectionCounts { tp: 4, fp: 0, fn_: 1 }),
    ];
    assert_eq!(sum_detection_counts(&m), (7, 1, 3));
    assert_eq!(sum_detection_counts(&[]), (0, 0, 0));
}

#[test]
fn frame_seeds_are_distinct_across_indices_splits_and_global_seeds() {
    let mut seen = std::collections::HashSet::new();
    for g in [0u64, 1, 42] {
        let d = SeedDeriver::new(g);
        for split in [DatasetSplit::Train, DatasetSplit::Val, DatasetSplit::Test] {
            for i in 0..200 {
                assert!(seen.insert(d.frame_seed(split, i)));
            }
        }
    }
    let mut outs = std::collections::HashSet::new();
    for v in 0..1000u64 {
        assert!(outs.insert(splitmix64(v)));
    }
}
