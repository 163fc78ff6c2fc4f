//! Synthetic-dataset planning: split configuration, the ordered frame plan,
//! split validation, frame naming and the records a generated dataset keeps.

use vstd::prelude::*;

use std::path::PathBuf;

use crate::telemetry::civil_date;
use crate::text::{decimal_padded, push_char, push_decimal_padded};

verus! {

/// `std::path::PathBuf`, carried through records unchanged.
#[verifier::external_type_specification]
#[verifier::external_body]
pub struct ExPathBuf(PathBuf);

/// Dataset split a frame belongs to.
#[derive(Debug, Clone, Copy, PartialEq, Eq, Structural)]
pub enum DatasetSplit {
    Train,
    Val,
    Test,
}

/// Lower-case split name used in paths and records.
pub open spec fn split_name(split: DatasetSplit) -> Seq<char> {
    match split {
        DatasetSplit::Train => "train"@,
        DatasetSplit::Val => "val"@,
        DatasetSplit::Test => "test"@,
    }
}

impl DatasetSplit {
    /// Name of the split: `train`, `val` or `test`.
    pub fn as_str(self) -> (r: &'static str)
        ensures
            r@ == split_name(self),
    {
        match self {
            Self::Train => "train",
            Self::Val => "val",
            Self::Test => "test",
        }
    }
}

/// Number of frames per split.
#[derive(Debug, Clone)]
pub struct SplitConfig {
    pub train_frames: usize,
    pub val_frames: usize,
    pub test_frames: usize,
}

impl SplitConfig {
    /// Frames over all three splits.
    pub fn total_frames(&self) -> (r: usize)
        requires
            self.train_frames + self.val_frames + self.test_frames <= usize::MAX,
        ensures
            r == self.train_frames + self.val_frames + self.test_frames,
    {
        self.train_frames + self.val_frames + self.test_frames
    }

    /// The default split sizes: 100 training, 20 validation, 20 test frames.
    pub fn new_default() -> (r: SplitConfig)
        ensures
            r.train_frames == 100 && r.val_frames == 20 && r.test_frames == 20,
    {
        SplitConfig { train_frames: 100, val_frames: 20, test_frames: 20 }
    }
}

impl Default for SplitConfig {
    fn default() -> (r: SplitConfig)
        ensures
            r.train_frames == 100 && r.val_frames == 20 && r.test_frames == 20,
    {
        SplitConfig::new_default()
    }
}

/// Frames configured for `split`.
pub open spec fn spec_split_count(splits: SplitConfig, split: DatasetSplit) -> nat {
    match split {
        DatasetSplit::Train => splits.train_frames as nat,
        DatasetSplit::Val => splits.val_frames as nat,
        DatasetSplit::Test => splits.test_frames as nat,
    }
}

/// Number of frames configured for `split`.
pub fn split_frame_count(splits: &SplitConfig, split: DatasetSplit) -> (r: usize)
    ensures
        r == spec_split_count(*splits, split),
{
    match split {
        DatasetSplit::Train => splits.train_frames,
        DatasetSplit::Val => splits.val_frames,
        DatasetSplit::Test => splits.test_frames,
    }
}

/// Where the star catalog comes from and how it is described in metadata.
#[derive(Debug)]
pub struct CatalogConfig {
    pub csv_path: Option<PathBuf>,
    pub name: String,
    pub subset: String,
    pub license: String,
}

impl CatalogConfig {
    /// The built-in bright-star sample: no CSV path.
    pub fn new_default() -> (r: CatalogConfig)
        ensures
            r.csv_path is None,
            r.name@ == "baseline-built-in"@,
            r.subset@ == "bright-stars-sample"@,
            r.license@ == "internal-demo"@,
    {
        CatalogConfig {
            csv_path: None,
            name: "baseline-built-in".to_owned(),
            subset: "bright-stars-sample".to_owned(),
            license: "internal-demo".to_owned(),
        }
    }
}

impl Default for CatalogConfig {
    fn default() -> (r: CatalogConfig)
        ensures
            r.csv_path is None,
            r.name@ == "baseline-built-in"@,
            r.subset@ == "bright-stars-sample"@,
            r.license@ == "internal-demo"@,
    {
        CatalogConfig::new_default()
    }
}

/// One frame to generate: its split and its index within that split.
#[derive(Debug, Clone, Copy, PartialEq, Eq, Structural)]
pub struct PlannedFrame {
    pub split: DatasetSplit,
    pub split_frame_index: usize,
}

/// Ordered list of frames to generate.
#[derive(Debug, Clone)]
pub struct DatasetPlan {
    pub frames: Vec<PlannedFrame>,
}

/// The `i`-th frame of the plan: all training frames, then validation, then
/// test, each split numbered from zero.
pub open spec fn planned_frame_at(splits: SplitConfig, i: int) -> PlannedFrame {
    let t = splits.train_frames as int;
    let v = splits.val_frames as int;
    if i < t {
        PlannedFrame { split: DatasetSplit::Train, split_frame_index: i as usize }
    } else if i < t + v {
        PlannedFrame { split: DatasetSplit::Val, split_frame_index: (i - t) as usize }
    } else {
        PlannedFrame { split: DatasetSplit::Test, split_frame_index: (i - t - v) as usize }
    }
}

/// Total frames of a split configuration.
pub open spec fn plan_len(splits: SplitConfig) -> nat {
    (splits.train_frames + splits.val_frames + splits.test_frames) as nat
}

fn push_split_frames(frames: &mut Vec<PlannedFrame>, split: DatasetSplit, count: usize)
    ensures
        final(frames)@.len() == old(frames)@.len() + count,
        forall|j: int| 0 <= j < old(frames)@.len() ==> #[trigger] final(frames)@[j] == old(frames)@[j],
        forall|j: int|
            old(frames)@.len() <= j < final(frames)@.len() ==> #[trigger] final(frames)@[j]
                == (PlannedFrame { split, split_frame_index: (j - old(frames)@.len()) as usize }),
{
    let ghost base = frames@.len();
    let mut k: usize = 0;
    while k < count
        invariant
            k <= count,
            base == old(frames)@.len(),
            frames@.len() == base + k,
            forall|j: int| 0 <= j < base ==> #[trigger] frames@[j] == old(frames)@[j],
            forall|j: int|
                base <= j < frames@.len() ==> #[trigger] frames@[j] == (PlannedFrame {
                    split,
                    split_frame_index: (j - base) as usize,
                }),
        decreases count - k,
    {
        frames.push(PlannedFrame { split, split_frame_index: k });
        k = k + 1;
    }
}

/// The ordered frame plan for a split configuration.
pub fn plan_from_config(splits: &SplitConfig) -> (plan: DatasetPlan)
    requires
        splits.train_frames + splits.val_frames + splits.test_frames <= usize::MAX,
    ensures
        plan.frames@.len() == plan_len(*splits),
        forall|i: int| 0 <= i < plan.frames@.len() ==> #[trigger] plan.frames@[i] == planned_frame_at(*splits, i),
{
    let mut frames: Vec<PlannedFrame> = Vec::new();
    push_split_frames(&mut frames, DatasetSplit::Train, split_frame_count(splits, DatasetSplit::Train));
    push_split_frames(&mut frames, DatasetSplit::Val, split_frame_count(splits, DatasetSplit::Val));
    push_split_frames(&mut frames, DatasetSplit::Test, split_frame_count(splits, DatasetSplit::Test));
    DatasetPlan { frames }
}

/// Problems with a dataset configuration or a generated dataset.
#[derive(Debug, Clone, PartialEq, Eq)]
pub enum DatasetError {
    /// A split was configured with no frames.
    EmptySplit { split: &'static str },
    /// Two generations from one seed produced different directory digests.
    ReproducibilityMismatch { first_digest: String, second_digest: String },
}

/// The first split, in train/val/test order, that has no frames.
pub open spec fn first_empty_split(splits: SplitConfig) -> Option<DatasetSplit> {
    if splits.train_frames == 0 {
        Some(DatasetSplit::Train)
    } else if splits.val_frames == 0 {
        Some(DatasetSplit::Val)
    } else if splits.test_frames == 0 {
        Some(DatasetSplit::Test)
    } else {
        None
    }
}

/// Every split must hold at least one frame; the first empty split is reported.
pub fn validate_splits(splits: &SplitConfig) -> (r: Result<(), DatasetError>)
    ensures
        match first_empty_split(*splits) {
            None => r is Ok,
            Some(s) => (r matches Err(DatasetError::EmptySplit { split }) && split@ == split_name(s)),
        },
{
    let order = [DatasetSplit::Train, DatasetSplit::Val, DatasetSplit::Test];
    let mut i: usize = 0;
    while i < 3
        invariant
            i <= 3,
            order@ == seq![DatasetSplit::Train, DatasetSplit::Val, DatasetSplit::Test],
            forall|j: int| 0 <= j < i ==> spec_split_count(*splits, #[trigger] order@[j]) > 0,
        decreases 3 - i,
    {
        let split = order[i];
        if split_frame_count(splits, split) == 0 {
            return Err(DatasetError::EmptySplit { split: split.as_str() });
        }
        i = i + 1;
    }
    Ok(())
}

/// Frame identifier `frame-NNNNNN` of the frame at `split_frame_index`
/// (numbered from one, zero-padded to six digits).
pub open spec fn frame_id_of(split_frame_index: nat) -> Seq<char> {
    "frame-"@ + decimal_padded(split_frame_index + 1, 6)
}

/// The identifier of the frame at `split_frame_index` within its split.
pub fn frame_id(split_frame_index: usize) -> (r: String)
    requires
        split_frame_index < usize::MAX,
    ensures
        r@ == frame_id_of(split_frame_index as nat),
{
    let mut out = "frame-".to_owned();
    push_decimal_padded(&mut out, (split_frame_index + 1) as u64, 6);
    out
}

/// Seconds after the Unix epoch stamped on a frame: a fixed base, plus the
/// frame's index, plus 0 / 1000 / 2000 seconds for train / val / test.
pub open spec fn frame_timestamp_seconds(split: DatasetSplit, split_frame_index: nat) -> int {
    1_700_000_000 + split_frame_index + match split {
        DatasetSplit::Train => 0int,
        DatasetSplit::Val => 1_000int,
        DatasetSplit::Test => 2_000int,
    }
}

/// The year as `chrono` writes it in RFC 3339 text: four digits for years
/// 0 to 9999, otherwise signed and zero-padded to at least four digits.
pub open spec fn rfc3339_year(y: int) -> Seq<char> {
    if 0 <= y <= 9999 {
        decimal_padded(y as nat, 4)
    } else if y > 9999 {
        seq!['+'] + decimal_padded(y as nat, 4)
    } else {
        seq!['-'] + decimal_padded((-y) as nat, 4)
    }
}

/// RFC 3339 text `chrono` produces for the UTC instant `secs` whole seconds
/// after the Unix epoch: `YYYY-MM-DDTHH:MM:SS+00:00`, with no fraction for a
/// whole second and the UTC offset written as `+00:00`.
pub open spec fn chrono_rfc3339_utc(secs: int) -> Seq<char> {
    let (y, m, d) = civil_date(secs / 86400);
    let sod = secs % 86400;
    rfc3339_year(y) + seq!['-'] + decimal_padded(m as nat, 2) + seq!['-'] + decimal_padded(d as nat, 2)
        + seq!['T'] + decimal_padded((sod / 3600) as nat, 2) + seq![':'] + decimal_padded(
        ((sod % 3600) / 60) as nat,
        2,
    ) + seq![':'] + decimal_padded((sod % 60) as nat, 2) + "+00:00"@
}

/// `chrono`: `(DateTime::<Utc>::UNIX_EPOCH + TimeDelta::seconds(secs)).to_rfc3339()`,
/// the text `chrono_rfc3339_utc(secs)`; the range excludes the panics of
/// `TimeDelta::seconds` and of `DateTime + TimeDelta`.
#[verifier::external_body]
fn chrono_rfc3339_of_unix_seconds(secs: i64) -> (r: String)
    requires
        0 <= secs <= 4_000_000_000_000,
    ensures
        r@ == chrono_rfc3339_utc(secs as int),
{
    (chrono::DateTime::<chrono::Utc>::UNIX_EPOCH + chrono::TimeDelta::seconds(secs)).to_rfc3339()
}

/// RFC 3339 acquisition time recorded in a frame's metadata.
pub fn frame_timestamp_utc(split: DatasetSplit, split_frame_index: usize) -> (r: String)
    requires
        split_frame_index <= 3_000_000_000_000,
    ensures
        r@ == chrono_rfc3339_utc(frame_timestamp_seconds(split, split_frame_index as nat)),
{
    let offset: i64 = match split {
        DatasetSplit::Train => 0,
        DatasetSplit::Val => 1_000,
        DatasetSplit::Test => 2_000,
    };
    chrono_rfc3339_of_unix_seconds(1_700_000_000 + split_frame_index as i64 + offset)
}

/// Frame counts per split, as written to the manifest.
#[derive(Debug, Clone, PartialEq, Eq)]
pub struct SplitCounts {
    pub train: usize,
    pub val: usize,
    pub test: usize,
}

/// The manifest's split counts for a configuration.
pub fn split_counts(splits: &SplitConfig) -> (r: SplitCounts)
    ensures
        r.train == splits.train_frames && r.val == splits.val_frames && r.test == splits.test_frames,
{
    SplitCounts { train: splits.train_frames, val: splits.val_frames, test: splits.test_frames }
}

/// Paths (relative to the dataset root) of one generated frame's files.
#[derive(Debug)]
pub struct FrameArtifactRecord {
    pub frame_id: String,
    pub split: String,
    pub image_path: PathBuf,
    pub meta_path: PathBuf,
    pub truth_path: PathBuf,
}

/// Manifest of a generated dataset.
#[derive(Debug)]
pub struct DatasetManifest {
    pub schema_version: String,
    pub seed: u64,
    pub output_root: PathBuf,
    pub splits: SplitCounts,
    pub frames: Vec<FrameArtifactRecord>,
}

/// Position of a frame within its split, as recorded in frame metadata.
#[derive(Debug, Clone, PartialEq, Eq)]
pub struct FrameGeneratorMetadata {
    pub split_frame_index: usize,
    pub total_split_frames: usize,
}

/// Generator metadata for a planned frame.
pub fn generator_metadata(splits: &SplitConfig, frame: PlannedFrame) -> (r: FrameGeneratorMetadata)
    ensures
        r.split_frame_index == frame.split_frame_index,
        r.total_split_frames == spec_split_count(*splits, frame.split),
{
    FrameGeneratorMetadata {
        split_frame_index: frame.split_frame_index,
        total_split_frames: split_frame_count(splits, frame.split),
    }
}

/// Catalog description copied into every frame's metadata.
#[derive(Debug, Clone, PartialEq, Eq)]
pub struct FrameCatalogMetadata {
    pub name: String,
    pub subset: String,
    pub license: String,
}

/// Outcome of generating a dataset twice from one seed.
#[derive(Debug, Clone, PartialEq, Eq)]
pub struct ReproducibilityReport {
    pub first_digest: String,
    pub second_digest: String,
    pub equivalent: bool,
}

/// Compares two directory digests; a mismatch is an error carrying both.
pub fn reproducibility_verdict(first_digest: String, second_digest: String) -> (r: Result<
    ReproducibilityReport,
    DatasetError,
>)
    ensures
        first_digest@ == second_digest@ ==> (r matches Ok(rep) && rep.equivalent
            && rep.first_digest@ == first_digest@ && rep.second_digest@ == second_digest@),
        first_digest@ != second_digest@ ==> (r matches Err(
            DatasetError::ReproducibilityMismatch { first_digest: a, second_digest: b },
        ) && a@ == first_digest@ && b@ == second_digest@),
{
    let equivalent = first_digest == second_digest;
    if !equivalent {
        return Err(DatasetError::ReproducibilityMismatch { first_digest, second_digest });
    }
    Ok(ReproducibilityReport { first_digest, second_digest, equivalent })
}

/// Schema identifier written into manifests and frame metadata.
pub fn schema_version() -> (r: &'static str)
    ensures
        r@ == "starglyph.synthetic.v1"@,
{
    "starglyph.synthetic.v1"
}

} // verus!
